//! Boards from pick-and-place exports.
use metalroute::pnp::{board_from_pnp, PnpDocument, PnpPlacement};

const SCHEMA: &str = "wn.kicad_cruncher.pnp.v1";

fn placed(designator: &str, layer: &str, x: f64, y: f64, rotation: f64) -> PnpPlacement<f64> {
    PnpPlacement {
        designator: designator.to_string(),
        layer: layer.to_string(),
        center_x: x,
        center_y: y,
        rotation,
    }
}

fn export(schema: &str, placements: Vec<PnpPlacement<f64>>) -> PnpDocument<f64> {
    PnpDocument {
        schema: schema.to_string(),
        units: Some("mm".to_string()),
        placements,
    }
}

fn fiducials() -> PnpDocument<f64> {
    export(
        SCHEMA,
        (1..=7)
            .map(|i| placed(&format!("FID{i}"), "top", 40.0 * i as f64, 25.0, 0.0))
            .collect(),
    )
}

#[test]
fn parses_real_fixture_pad_count_and_layers() {
    let ir = board_from_pnp(fiducials()).unwrap();
    assert_eq!(ir.pads.len(), 7);
    assert_eq!(ir.layers, vec!["top".to_string()]);
    assert_eq!(ir.units.as_deref(), Some("mm"));
    assert!(ir.outline.is_empty());
    assert!(ir.pads.iter().all(|p| p.net.is_none()));
}

#[test]
fn maps_placement_fields_into_pad() {
    let ir = board_from_pnp(fiducials()).unwrap();
    let fid1 = ir.pads.iter().find(|p| p.designator == "FID1").unwrap();
    assert_eq!(fid1.x, 40.0);
    assert_eq!(fid1.y, 25.0);
    assert_eq!(fid1.layer, "top");
    assert_eq!(fid1.rotation, 0.0);
}

#[test]
fn dedups_layers_in_first_seen_order() {
    let ir = board_from_pnp(export(
        SCHEMA,
        vec![
            placed("U1", "top", 1.0, 2.0, 0.0),
            placed("R1", "bottom", 3.0, 4.0, 180.0),
            placed("C1", "bottom", 5.0, 6.0, 90.0),
        ],
    ))
    .unwrap();
    assert_eq!(ir.pads.len(), 3);
    assert_eq!(ir.layers, vec!["top".to_string(), "bottom".to_string()]);
    let r1 = ir.pads.iter().find(|p| p.designator == "R1").unwrap();
    assert_eq!(r1.layer, "bottom");
    assert_eq!(r1.rotation, 180.0);
}

#[test]
fn unexpected_schema_marker_is_rejected() {
    let err = board_from_pnp(export("wn.kicad_cruncher.pnp.v999", vec![]));
    assert!(matches!(err, Err(s) if s.contains("v999")));
}

#[test]
fn empty_placements_yields_empty_ir() {
    let ir = board_from_pnp(export(SCHEMA, vec![])).unwrap();
    assert!(ir.pads.is_empty());
    assert!(ir.layers.is_empty());
}
