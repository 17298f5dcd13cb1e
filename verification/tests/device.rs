use fantom::device::{Device, Fantom0};

#[test]
fn the_fantom_0_series_names_itself_and_holds_sixteen_zones() {
    let device = Fantom0;
    assert_eq!(device.name(), "Fantom-0");
    assert_eq!(device.zones_per_scene(), 16);
}
