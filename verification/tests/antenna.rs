use skipzone_app::antenna::AntennaKind;

#[test]
fn labels_name_each_type() {
    assert_eq!(AntennaKind::Isotropic.label(), "isotropic (0 dBi)");
    assert_eq!(AntennaKind::HorizontalDipole.label(), "horizontal half-wave dipole");
    assert_eq!(AntennaKind::VerticalMonopole.label(), "ground-mounted vertical (1/4 wave)");
    assert_eq!(AntennaKind::Efhw.label(), "end-fed half-wave (EFHW)");
}

#[test]
fn inputs_each_type_uses() {
    assert!(!AntennaKind::Isotropic.uses_height());
    assert!(AntennaKind::HorizontalDipole.uses_height());
    assert!(AntennaKind::VerticalMonopole.uses_height());
    assert!(AntennaKind::Efhw.uses_height());
    assert!(AntennaKind::Efhw.uses_design_freq());
    assert!(!AntennaKind::HorizontalDipole.uses_design_freq());
    assert!(!AntennaKind::VerticalMonopole.uses_design_freq());
    assert!(!AntennaKind::Isotropic.uses_design_freq());
}

#[test]
fn picker_lists_every_type_once() {
    assert_eq!(AntennaKind::ALL.len(), 4);
    for k in [
        AntennaKind::Isotropic,
        AntennaKind::HorizontalDipole,
        AntennaKind::VerticalMonopole,
        AntennaKind::Efhw,
    ] {
        assert_eq!(AntennaKind::ALL.iter().filter(|x| **x == k).count(), 1);
    }
    assert_eq!(AntennaKind::ALL[0], AntennaKind::HorizontalDipole);
}
