//! Reading Specctra designs.
use metalroute::design::{DsnError, PlacedPin};
use metalroute::dsn::{split_ref_pin, PlaneDef};
use metalroute::ingest::{read_design, Design};
use metalroute::layers::{pad_layer_names, LayerMap};
use metalroute::library::PadShape;
use metalroute::magnitude::is_positive_text;
use metalroute::number::is_numeric;
use metalroute::sexpr::{parse_node, parse_sexpr, tokenize, Sexpr, SexprError};
use metalroute::ViaModel;

const DEFAULT_TRACE_WIDTH_MM: f64 = 0.15;
const DEFAULT_CLEARANCE_MM: f64 = 0.15;

/// What a number of the design measures in millimetres.
fn mm(design: &Design, raw: &str) -> f64 {
    let unit = design.resolution.nanometres as f64 / 1e6;
    let factor: f64 = if design.resolution.scaled {
        design.resolution.divisor.parse().unwrap()
    } else {
        1.0
    };
    raw.parse::<f64>().unwrap() * (unit / factor)
}

/// Steps of a session in a millimetre.
fn units_per_mm(design: &Design) -> f64 {
    let divisor: f64 = design.resolution.divisor.parse().unwrap();
    divisor / (design.resolution.nanometres as f64 / 1e6)
}

/// The smallest and the largest coordinates of the board.
fn bounds(design: &Design) -> (f64, f64, f64, f64) {
    let xs: Vec<f64> = design.boundary.iter().map(|p| mm(design, &p.0)).collect();
    let ys: Vec<f64> = design.boundary.iter().map(|p| mm(design, &p.1)).collect();
    let least = |v: &[f64]| v.iter().copied().fold(f64::INFINITY, f64::min);
    let most = |v: &[f64]| v.iter().copied().fold(f64::NEG_INFINITY, f64::max);
    (least(&xs), least(&ys), most(&xs), most(&ys))
}

fn width_mm(design: &Design) -> f64 {
    design
        .width
        .as_ref()
        .map_or(DEFAULT_TRACE_WIDTH_MM, |w| mm(design, w))
}

fn clearance_mm(design: &Design) -> f64 {
    design
        .clearance
        .as_ref()
        .map_or(DEFAULT_CLEARANCE_MM, |c| mm(design, c))
}

fn degrees(raw: &Option<String>) -> f64 {
    raw.as_ref().map_or(0.0, |r| r.parse().unwrap())
}

/// Where a pin is on the board, and how far its pad is turned.
fn position(design: &Design, pin: &PlacedPin) -> (f64, f64, f64) {
    let turn = degrees(&pin.at.rot);
    let (sin, cos) = turn.to_radians().sin_cos();
    let off_x = mm(design, &pin.pin.off_x);
    let lx = if pin.at.back { -off_x } else { off_x };
    let ly = mm(design, &pin.pin.off_y);
    let own = degrees(&pin.pin.rotation);
    (
        mm(design, &pin.at.x) + lx * cos - ly * sin,
        mm(design, &pin.at.y) + lx * sin + ly * cos,
        turn + if pin.at.back { -own } else { own },
    )
}

/// The size of the smallest box around all shapes of a padstack.
fn size(design: &Design, shapes: &[PadShape]) -> (f64, f64) {
    let mut best = (0.0_f64, 0.0_f64);
    for shape in shapes {
        let (w, h) = match shape {
            PadShape::Circle(d) => (mm(design, d).abs(), mm(design, d).abs()),
            PadShape::Rect(a, b, c, d) => (
                (mm(design, c) - mm(design, a)).abs(),
                (mm(design, d) - mm(design, b)).abs(),
            ),
        };
        best = (best.0.max(w), best.1.max(h));
    }
    best
}

/// The size of the box around a pad as it is turned on the board.
fn extents(design: &Design, pin: &PlacedPin) -> (f64, f64) {
    let (w, h) = size(design, &pin.pad.as_ref().unwrap().shapes);
    let turn = position(design, pin).2;
    let quarters = (turn / 90.0).round();
    if (turn - quarters * 90.0).abs() <= 1e-9 {
        if (quarters as i64).rem_euclid(2) == 1 {
            return (h, w);
        }
        return (w, h);
    }
    let (sin, cos) = turn.to_radians().sin_cos();
    let (sin, cos) = (sin.abs(), cos.abs());
    (w * cos + h * sin, w * sin + h * cos)
}

fn pin<'a>(design: &'a Design, label: &str) -> &'a PlacedPin {
    design
        .pins
        .iter()
        .find(|p| format!("{}-{}", p.at.reference, p.pin.id) == label)
        .unwrap_or_else(|| panic!("missing {label}"))
}

fn layers<'a>(p: &'a PlacedPin) -> &'a Vec<String> {
    &p.pad.as_ref().unwrap().layers
}

const SYNTH: &str = r#"
(pcb "synth.dsn"
  (parser
    (string_quote ")
    (space_in_quoted_tokens on)
  )
  (resolution um 10)
  (unit mm)
  (structure
    (layer F.Cu (type signal))
    (layer B.Cu (type signal))
    (boundary
      (path pcb 0 0 0 20000 0 20000 20000 0 20000 0 0)
    )
    (rule (width 150))
  )
  (placement
    (component "img_a"
      (place A 5000 5000 front 0)
    )
    (component "img_b"
      (place B 15000 5000 back 90)
    )
  )
  (library
    (image "img_a"
      (pin "ps_rect" 1 -1000 0)
      (pin "ps_rect" 2 1000 0)
    )
    (image "img_b"
      (pin "ps_circ" 1 1000 0)
      (pin "ps_circ" 2 -1000 0)
    )
    (padstack "ps_rect"
      (shape (rect F.Cu -500 -250 500 250))
      (attach off)
    )
    (padstack "ps_circ"
      (shape (circle F.Cu 600 0 0))
      (attach off)
    )
  )
  (network
    (net "N1"
      (pins A-2 B-1)
    )
    (net "ONLYONE"
      (pins A-1)
    )
  )
)
"#;

#[test]
fn tokenizer_handles_quoted_strings_and_parens() {
    let toks = tokenize(r#"(a "hello world" (b c))"#);
    assert_eq!(toks, vec!["(", "a", "hello world", "(", "b", "c", ")", ")"]);
}

#[test]
fn sexpr_parser_rejects_trailing_and_unmatched_input() {
    for invalid in ["(a) trailing", "(a) (b)", "(a))", "(a", ")"] {
        assert!(
            parse_sexpr(invalid).is_err(),
            "strict full-document parse must reject {invalid:?}"
        );
    }
    assert_eq!(
        parse_sexpr("(a (b c))").unwrap().head(),
        Some("a"),
        "control document remains valid"
    );
}

#[test]
fn resolution_divisor_must_be_positive_and_finite() {
    for divisor in ["0", "-1", "NaN", "inf", "-inf"] {
        let dsn = format!(
            r#"(pcb "bad-resolution"
                (resolution mm {divisor})
                (structure
                  (layer F.Cu (type signal))
                  (boundary (rect pcb 0 0 1000 1000))))"#
        );
        assert!(
            read_design(&dsn).is_err(),
            "resolution divisor {divisor} must be rejected"
        );
    }
}

#[test]
fn resolution_factor_does_not_scale_input_but_sets_session_precision() {
    let fixture = |factor: u32| {
        format!(
            r#"(pcb "units"
                (resolution um {factor})
                (structure
                  (layer F.Cu (type signal))
                  (boundary (rect pcb 1000 -2000 21000 8000))))"#
        )
    };

    let one = read_design(&fixture(1)).unwrap();
    let ten = read_design(&fixture(10)).unwrap();
    assert_eq!(bounds(&one), bounds(&ten));
    assert_eq!(bounds(&ten).0, 1.0);
    assert_eq!(bounds(&ten).1, -2.0);
    assert_eq!(bounds(&ten).2, 21.0);
    assert_eq!(bounds(&ten).3, 8.0);

    assert_eq!(units_per_mm(&one), 1_000.0);
    assert_eq!(units_per_mm(&ten), 10_000.0);
}

#[test]
fn bed_of_nails_scaled_input_retains_legacy_geometry_and_session_precision() {
    let standard = r#"(pcb "standard"
        (parser (host_cad "KiCad's Pcbnew"))
        (resolution um 10)
        (structure
          (layer F.Cu (type signal))
          (layer B.Cu (type signal))
          (boundary (rect pcb 0 0 1300000 1515750))
          (via "Via[0-1]_450:200_um")
          (rule (width 1500)))
        (library
          (padstack "Via[0-1]_450:200_um"
            (shape (circle F.Cu 4500))
            (shape (circle B.Cu 4500)))))"#;
    let scaled = standard.replace("KiCad's Pcbnew", "BED-OF-NAILS");

    let standard = read_design(standard).unwrap();
    let scaled = read_design(&scaled).unwrap();

    assert_eq!((bounds(&standard).2 - bounds(&standard).0), 1300.0);
    assert_eq!((bounds(&standard).3 - bounds(&standard).1), 1515.75);
    assert_eq!(width_mm(&standard), 1.5);
    assert_eq!(size(&standard, &standard.via_pads[0].pad.shapes).0, 4.5);

    assert_eq!((bounds(&scaled).2 - bounds(&scaled).0), 130.0);
    assert!(((bounds(&scaled).3 - bounds(&scaled).1) - 151.575).abs() < 1e-12);
    assert_eq!(width_mm(&scaled), 0.15);
    assert_eq!(size(&scaled, &scaled.via_pads[0].pad.shapes).0, 0.45);

    assert_eq!(units_per_mm(&standard), 10_000.0);
    assert_eq!(units_per_mm(&scaled), 10_000.0);
}

#[test]
fn split_ref_pin_uses_last_dash() {
    assert_eq!(
        split_ref_pin("C1-2"),
        Some(("C1".to_string(), "2".to_string()))
    );
    assert_eq!(
        split_ref_pin("Net-U6-BAT"),
        Some(("Net-U6".to_string(), "BAT".to_string()))
    );
    assert_eq!(split_ref_pin("nodash"), None);
}

#[test]
fn builds_pin_nets_from_network() {
    let ingest = read_design(SYNTH).unwrap();
    assert_eq!(ingest.pin_net("A-2"), Some("N1"));
    assert_eq!(ingest.pin_net("B-1"), Some("N1"));
    assert_eq!(
        ingest.pin_net("A-1"),
        Some("ONLYONE")
    );
    assert!(ingest.planes.is_empty());
}

#[test]
fn parses_plane_net_layer_binding() {
    const DSN: &str = r#"
    (pcb "p.dsn"
      (resolution um 10)
      (structure
        (layer F.Cu (type signal))
        (layer In1.Cu (type power))
        (layer B.Cu (type signal))
        (boundary (path pcb 0 0 0 1000 1000 1000 1000 0))
        (plane "GND" (polygon In1.Cu 0 0 0 0 1000 1000 1000 1000 0))
      )
    )
    "#;
    let ingest = read_design(DSN).unwrap();
    assert_eq!(
        ingest.planes,
        vec![PlaneDef {
            net: "GND".to_string(),
            layer: "In1.Cu".to_string(),
        }]
    );
}

#[test]
fn parses_synthetic_board() {
    let design = read_design(SYNTH).unwrap();

    assert_eq!(design.layer_map.len(), 2);
    assert_eq!(design.via_model.layers, 2);

    assert_eq!(bounds(&design).0, 0.0);
    assert_eq!(bounds(&design).2, 20.0);
    assert_eq!(bounds(&design).1, 0.0);
    assert_eq!(bounds(&design).3, 20.0);
    assert_eq!(bounds(&design).2 - bounds(&design).0, 20.0);
    assert_eq!(bounds(&design).3 - bounds(&design).1, 20.0);

    assert_eq!(width_mm(&design), 0.15);

    assert!(design.clearance.is_none());
    assert_eq!(clearance_mm(&design), DEFAULT_CLEARANCE_MM);

    assert_eq!(design.components, 2);

    assert_eq!(design.pins.len(), 4);
    assert!(design.pins.iter().all(|p| p.pad.is_some()));

    assert_eq!(design.connections.len(), 1);
    assert_eq!(design.nets_skipped_small, 1);
    assert_eq!(design.connections[0].name, "N1");
    assert_eq!(design.connections[0].points.len(), 2);
}

#[test]
fn parses_clearance_rule_alongside_width() {
    let dsn = r#"
    (pcb "clr.dsn"
      (resolution um 10)
      (structure
        (layer F.Cu (type signal))
        (boundary (rect pcb 0 0 10000 10000))
        (rule (width 150) (clearance 200))
      )
    )
    "#;
    let design = read_design(dsn).unwrap();
    assert_eq!(width_mm(&design), 0.15);
    assert_eq!(design.clearance.as_deref(), Some("200"));
    assert_eq!(clearance_mm(&design), 0.20);
}

#[test]
fn clearance_falls_back_to_default_when_absent() {
    let dsn = r#"
    (pcb "noclr.dsn"
      (resolution um 10)
      (structure
        (layer F.Cu (type signal))
        (boundary (rect pcb 0 0 10000 10000))
        (rule (width 150))
      )
    )
    "#;
    let design = read_design(dsn).unwrap();
    assert!(design.clearance.is_none());
    assert_eq!(clearance_mm(&design), DEFAULT_CLEARANCE_MM);
}

#[test]
fn structure_clearance_overrides_pcb_level() {
    let dsn = r#"
    (pcb "ovr.dsn"
      (resolution um 10)
      (rule (clearance 300))
      (structure
        (layer F.Cu (type signal))
        (boundary (rect pcb 0 0 10000 10000))
        (rule (clearance 200))
      )
    )
    "#;
    let design = read_design(dsn).unwrap();
    assert_eq!(design.clearance.as_deref(), Some("200"));
    assert_eq!(clearance_mm(&design), 0.20);
}

#[test]
fn aggregates_multiple_rule_blocks_with_per_property_scope_precedence() {
    let dsn = r#"
    (pcb "rules.dsn"
      (resolution um 10)
      (rule (width 100) (clearance 300))
      (structure
        (layer F.Cu (type signal))
        (boundary (rect pcb 0 0 10000 10000))
        (rule (clearance 200))
        (rule (width 150))
      )
    )
    "#;
    let design = read_design(dsn).unwrap();
    assert_eq!(design.width.as_deref(), Some("150"));
    assert_eq!(design.clearance.as_deref(), Some("200"));
    assert_eq!(width_mm(&design), 0.15);
    assert_eq!(clearance_mm(&design), 0.20);
}

#[test]
fn asymmetric_pad_geometry_handles_quarter_turns_and_arbitrary_angles() {
    let dsn = r#"
    (pcb "rotated-pads.dsn"
      (resolution um 10)
      (structure
        (layer F.Cu (type signal))
        (boundary (rect pcb 0 0 10000 10000)))
      (placement
        (component "plain"
          (place R0 1000 1000 front 0)
          (place R90 3000 1000 front 90)
          (place R180 5000 1000 front 180)
          (place R270 7000 1000 front 270)
          (place R45 9000 1000 front 45))
        (component "pin-rotated"
          (place P90 3000 4000 front 0)
          (place P270 7000 4000 front 180))
        (component "back-pin-rotated"
          (place B45 5000 7000 back 60)))
      (library
        (image "plain" (pin "asym" 1 0 0))
        (image "pin-rotated" (pin "asym" (rotate 90) 1 0 0))
        (image "back-pin-rotated" (pin "asym" (rotate 15) 1 0 0))
        (padstack "asym" (shape (rect F.Cu -1000 -250 1000 250))))
      (network)
    )
    "#;
    let design = read_design(dsn).unwrap();
    let dims = |id: &str| extents(&design, pin(&design, &format!("{id}-1")));
    assert_eq!(dims("R0"), (2.0, 0.5));
    assert_eq!(dims("R180"), (2.0, 0.5));
    assert_eq!(dims("R90"), (0.5, 2.0));
    assert_eq!(dims("R270"), (0.5, 2.0));
    assert_eq!(dims("P90"), (0.5, 2.0), "pin-local rotate must apply");
    assert_eq!(
        dims("P270"),
        (0.5, 2.0),
        "pin + placement rotation must compose"
    );

    let expected_45 = 2.5 / 2.0_f64.sqrt();
    for id in ["R45", "B45"] {
        let (width, height) = dims(id);
        assert!(
            (width - expected_45).abs() < 1e-12
                && (height - expected_45).abs() < 1e-12,
            "{id} 45-degree AABB = ({width}, {height}), expected ({expected_45}, {expected_45})"
        );
    }
}

#[test]
fn multi_shape_padstack_uses_conservative_maximum_extents() {
    let dsn = r#"
    (pcb "multi-shape.dsn"
      (resolution um 10)
      (structure
        (layer F.Cu (type signal))
        (layer B.Cu (type signal))
        (boundary (rect pcb 0 0 10000 10000)))
      (placement (component "part" (place U1 5000 5000 front 0)))
      (library
        (image "part" (pin "stack" 1 0 0))
        (padstack "stack"
          (shape (rect F.Cu -500 -250 500 250))
          (shape (circle B.Cu 3000))))
      (network)
    )
    "#;
    let design = read_design(dsn).unwrap();
    assert_eq!(design.pins.len(), 1);
    let pad = &design.pins[0];
    assert_eq!(extents(&design, pad), (3.0, 3.0));
    assert_eq!(*layers(pad), vec!["F.Cu", "B.Cu"]);
}

#[test]
fn computes_abs_pin_position_front_no_rotation() {
    let design = read_design(SYNTH).unwrap();
    let a2 = pin(&design, "A-2");
    let (x, y, _) = position(&design, a2);
    let (width, height) = extents(&design, a2);
    assert!((x - 6.0).abs() < 1e-9, "x = {}", x);
    assert!((y - 5.0).abs() < 1e-9, "y = {}", y);
    assert!((width - 1.0).abs() < 1e-9);
    assert!((height - 0.5).abs() < 1e-9);
}

#[test]
fn computes_abs_pin_position_back_rotated() {
    let design = read_design(SYNTH).unwrap();
    let b1 = pin(&design, "B-1");
    let (x, y, _) = position(&design, b1);
    let (width, height) = extents(&design, b1);
    assert!((x - 15.0).abs() < 1e-6, "x = {}", x);
    assert!((y - 4.0).abs() < 1e-6, "y = {}", y);
    assert!((width - 0.6).abs() < 1e-9);
    assert!((height - 0.6).abs() < 1e-9);
}

#[test]
fn tolerates_pin_with_rotate_subtoken() {
    let dsn = r#"
    (pcb "r.dsn"
      (resolution um 10)
      (structure
        (layer F.Cu (type signal))
        (boundary (rect pcb 0 0 10000 10000))
      )
      (placement
        (component "img" (place X 5000 5000 front 0))
      )
      (library
        (image "img"
          (pin "ps" (rotate 90) 1 0 0)
          (pin "ps" 2 2000 0)
        )
        (padstack "ps" (shape (circle F.Cu 500 0 0)))
      )
      (network (net "n" (pins X-1 X-2)))
    )
    "#;
    let design = read_design(dsn).unwrap();
    assert_eq!(design.pins.len(), 2);
    assert_eq!(design.connections.len(), 1);
    let (x, y, _) = position(&design, pin(&design, "X-1"));
    assert!((x - 5.0).abs() < 1e-9);
    assert!((y - 5.0).abs() < 1e-9);
}

#[test]
fn handles_rect_boundary_form() {
    let dsn = r#"
    (pcb "rb.dsn"
      (resolution um 10)
      (structure
        (layer F.Cu (type signal))
        (boundary (rect pcb 0 -100000 200000 0))
      )
      (placement)
      (library)
      (network)
    )
    "#;
    let design = read_design(dsn).unwrap();
    assert!((bounds(&design).2 - 200.0).abs() < 1e-9);
    assert!((bounds(&design).1 + 100.0).abs() < 1e-9);
    assert!((bounds(&design).0 - 0.0).abs() < 1e-9);
}

#[test]
fn missing_resolution_is_an_error() {
    let dsn =
        r#"(pcb "x" (structure (layer F.Cu (type signal)) (boundary (rect pcb 0 0 1 1))))"#;
    assert!(read_design(dsn).is_err());
}

const MULTILAYER: &str = r#"
(pcb "ml.dsn"
  (resolution um 10)
  (structure
    (layer F.Cu (type signal))
    (layer B.Cu (type signal))
    (boundary (rect pcb 0 0 20000 20000))
    (via "ps_th")
    (rule (width 150))
  )
  (placement
    (component "img_t" (place T 5000 5000 front 0))
    (component "img_b" (place B 15000 5000 front 0))
    (component "img_h" (place H 10000 10000 front 0))
  )
  (library
    (image "img_t" (pin "ps_smd_top" 1 0 0))
    (image "img_b" (pin "ps_smd_bot" 1 0 0))
    (image "img_h" (pin "ps_th" 1 0 0))
    (padstack "ps_smd_top" (shape (rect F.Cu -500 -250 500 250)))
    (padstack "ps_smd_bot" (shape (rect B.Cu -500 -250 500 250)))
    (padstack "ps_th"
      (shape (circle F.Cu 600 0 0))
      (shape (circle B.Cu 600 0 0))
    )
  )
  (network
    (net "N1" (pins T-1 B-1 H-1))
  )
)
"#;

#[test]
fn multilayer_layer_map_is_file_ordered() {
    let ingest = read_design(MULTILAYER).unwrap();
    assert_eq!(ingest.via_model.layers, 2);
    assert_eq!(ingest.layer_map.len(), 2);
    assert_eq!(ingest.layer_map.name(0), "F.Cu");
    assert_eq!(ingest.layer_map.name(1), "B.Cu");
    assert_eq!(ingest.layer_map.index_of("B.Cu"), Some(1));
}

#[test]
fn smd_pad_lands_on_its_real_layer() {
    let ingest = read_design(MULTILAYER).unwrap();
    let b = pin(&ingest, "B-1");
    assert_eq!(*layers(b), vec!["B.Cu".to_string()]);
    assert_eq!(b.layer, "B.Cu");

    let t = pin(&ingest, "T-1");
    assert_eq!(*layers(t), vec!["F.Cu".to_string()]);
    assert_eq!(t.layer, "F.Cu");
}

#[test]
fn through_hole_pad_spans_all_layers() {
    let ingest = read_design(MULTILAYER).unwrap();
    let h = pin(&ingest, "H-1");
    assert_eq!(*layers(h), vec!["F.Cu".to_string(), "B.Cu".to_string()]);
    assert_eq!(h.layer, "F.Cu");
}

#[test]
fn connection_point_layers_follow_their_pad() {
    let ingest = read_design(MULTILAYER).unwrap();
    let n1 = &ingest.connections[0];
    assert_eq!(n1.name, "N1");
    let layers: Vec<Option<&str>> = n1
        .points
        .iter()
        .map(|&p| Some(ingest.pins[p].layer.as_str()))
        .collect();
    assert_eq!(layers, vec![Some("F.Cu"), Some("B.Cu"), Some("F.Cu")]);
}

#[test]
fn all_through_hole_via_model_matches_through_hole() {
    let ingest = read_design(MULTILAYER).unwrap();
    assert_eq!(ingest.via_model, ViaModel::through_hole(2));
    assert_eq!(ingest.vias_declared, 1);
    assert!(ingest.vias_through_hole());
    assert!(ingest.via_model.is_step_legal(0, 1));
    let geometry = &ingest.via_pads[0];
    assert_eq!(geometry.pad.name, "ps_th");
    assert_eq!(size(&ingest, &geometry.pad.shapes), (0.6, 0.6));
    assert_eq!(geometry.drill, None);
    assert_eq!(geometry.pad.layers, vec!["F.Cu", "B.Cu"]);
}

#[test]
fn kicad_via_name_supplies_drill_and_padstack_supplies_annulus() {
    let dsn = r#"
    (pcb "kicad-via.dsn"
      (resolution um 10)
      (structure
        (layer Top (type signal))
        (layer Bottom (type signal))
        (boundary (rect pcb 0 0 10000 10000))
        (via "Via[0-1]_600:300_um"))
      (library
        (padstack "Via[0-1]_600:300_um"
          (shape (circle Top 600))
          (shape (circle Bottom 600)))))
    "#;
    let ingest = read_design(dsn).unwrap();
    let geometry = &ingest.via_pads[0];
    assert_eq!(geometry.pad.name, "Via[0-1]_600:300_um");
    assert_eq!(size(&ingest, &geometry.pad.shapes).0, 0.6);
    assert_eq!(geometry.drill.as_deref().map(|d| d.parse::<f64>().unwrap() * 0.001), Some(0.3));
    assert_eq!(geometry.pad.layers, vec!["Top", "Bottom"]);
}

#[test]
fn no_declared_vias_defaults_to_through_hole() {
    let dsn = r#"
    (pcb "nv.dsn"
      (resolution um 10)
      (structure
        (layer F.Cu (type signal))
        (layer In1.Cu (type signal))
        (layer B.Cu (type signal))
        (boundary (rect pcb 0 0 10000 10000))
      )
      (placement)
      (library)
      (network)
    )
    "#;
    let ingest = read_design(dsn).unwrap();
    assert_eq!(ingest.layer_map.len(), 3);
    assert_eq!(ingest.via_model, ViaModel::through_hole(3));
    assert_eq!(ingest.vias_declared, 0);
    assert!(ingest.vias_through_hole());
}

#[test]
fn blind_buried_via_spans_restrict_steps() {
    let dsn = r#"
    (pcb "bb.dsn"
      (resolution um 10)
      (structure
        (layer F.Cu (type signal))
        (layer In1.Cu (type signal))
        (layer In2.Cu (type signal))
        (layer B.Cu (type signal))
        (boundary (rect pcb 0 0 10000 10000))
        (via "ps_buried")
      )
      (placement)
      (library
        (padstack "ps_buried"
          (shape (circle In1.Cu 400 0 0))
          (shape (circle In2.Cu 400 0 0))
        )
      )
      (network)
    )
    "#;
    let ingest = read_design(dsn).unwrap();
    assert!(!ingest.vias_through_hole());
    let v = &ingest.via_model;
    assert!(v.is_step_legal(1, 2));
    assert!(!v.is_step_legal(0, 1), "top step not drilled");
    assert!(!v.is_step_legal(2, 3), "bottom step not drilled");
}

#[test]
fn through_hole_wildcard_padstack_spans_stack() {
    let ingest = pad_layer_names(
        &vec!["signal".to_string()],
        &LayerMap::from_names(vec!["F.Cu".into(), "In1.Cu".into(), "B.Cu".into()]),
    );
    assert_eq!(ingest, vec!["F.Cu", "In1.Cu", "B.Cu"]);
}

/// A board with a structure and nothing else.
fn bare(structure: &str) -> String {
    format!("(pcb x (resolution um 10) (structure {structure}))")
}

const EDGE: &str = "(boundary (rect pcb 0 0 1 1))";

#[test]
fn lists_are_read_as_they_are_written() {
    let tree = parse_sexpr("(a (b \"c d\") ())").unwrap();
    let expected = Sexpr::List(vec![
        Sexpr::Atom("a".to_string()),
        Sexpr::List(vec![
            Sexpr::Atom("b".to_string()),
            Sexpr::Atom("c d".to_string()),
        ]),
        Sexpr::List(vec![]),
    ]);
    assert_eq!(tree, expected);
    assert_eq!(tree.clone(), expected);
    assert_eq!(tree.child_named("b").unwrap().word_at(1), Some("c d"));
    assert_eq!(tree.children_named("b").len(), 1);
    assert!(tree.child_named("z").is_none());
}

#[test]
fn each_flaw_of_a_list_is_named() {
    assert_eq!(parse_sexpr(""), Err(SexprError::UnexpectedEnd));
    assert_eq!(parse_sexpr("(a"), Err(SexprError::Unterminated));
    assert_eq!(parse_sexpr(")"), Err(SexprError::UnexpectedClose));
    assert_eq!(
        parse_sexpr("(a) b c"),
        Err(SexprError::Trailing("b".to_string()))
    );
}

#[test]
fn a_lone_quotation_mark_is_a_word() {
    assert_eq!(
        tokenize("(string_quote \") x"),
        vec!["(", "string_quote", "\"", ")", "x"]
    );
    assert_eq!(tokenize("\"open"), vec!["open"]);
    assert_eq!(tokenize("a\u{a0}b\u{3000}c"), vec!["a", "b", "c"]);
}

#[test]
fn a_divisor_is_finite_and_above_zero_in_double_precision() {
    for (text, kept) in [
        ("1", true),
        ("+.5", true),
        ("10.", true),
        ("1e308", true),
        ("1.7976931348623157e308", true),
        ("1.7976931348623158e308", true),
        ("1.7976931348623159e308", false),
        ("1e309", false),
        ("1e400", false),
        ("0.0001e313", false),
        ("0.00001e313", true),
        ("1e99999999999999999999999999999999999999999", false),
        ("0e99999999999999999999999999999999999999999", false),
        ("1e-99999999999999999999999999999999999999999", false),
        ("5e-324", true),
        ("2.5e-324", true),
        ("2.47e-324", false),
        ("2e-324", false),
        ("1e-400", false),
        ("0", false),
        ("0.000", false),
        ("-1", false),
        ("inf", false),
        ("-inf", false),
        ("infinity", false),
        ("nan", false),
    ] {
        let number: f64 = text.parse().unwrap();
        assert_eq!(number.is_finite() && number > 0.0, kept, "{text}");
        let said = read_design(&format!("(pcb (resolution um {text}) (structure))"));
        assert_eq!(
            said.is_err_and(|e| e == DsnError::BadDivisor(text.to_string())),
            !kept,
            "{text}"
        );
        assert_eq!(is_positive_text(text), kept, "{text}");
    }
}

#[test]
fn the_edges_of_double_precision_are_exact() {
    let mut below = vec![1u8];
    for _ in 0..970 {
        let mut carry = 0;
        for d in below.iter_mut() {
            let sum = *d * 2 + carry;
            *d = sum % 10;
            carry = sum / 10;
        }
        if carry > 0 {
            below.push(carry);
        }
    }
    // The edge is this power of two, 2^54 - 1 times over.
    let mut edge: Vec<u64> = Vec::new();
    let mut carry: u64 = 0;
    for d in &below {
        let sum = *d as u64 * ((1 << 54) - 1) + carry;
        edge.push(sum % 10);
        carry = sum / 10;
    }
    while carry > 0 {
        edge.push(carry % 10);
        carry /= 10;
    }
    let write = |digits: &[u64]| -> String {
        digits.iter().rev().map(|d| char::from(b'0' + *d as u8)).collect()
    };
    let at = write(&edge);
    assert!(at.parse::<f64>().unwrap().is_infinite());
    assert!(!is_positive_text(&at));
    assert_ne!(edge[0], 0);
    edge[0] -= 1;
    let just_below = write(&edge) + ".99999";
    assert_eq!(just_below.parse::<f64>().unwrap(), f64::MAX);
    assert!(is_positive_text(&just_below));

    // Half the least number is a power of five behind the point.
    let mut five = vec![1u64];
    for _ in 0..1075 {
        let mut carry = 0;
        for d in five.iter_mut() {
            let sum = *d * 5 + carry;
            *d = sum % 10;
            carry = sum / 10;
        }
        if carry > 0 {
            five.push(carry);
        }
    }
    let half = write(&five) + "e-1075";
    assert_eq!(half.parse::<f64>().unwrap(), 0.0);
    assert!(!is_positive_text(&half));
    let above = write(&five) + ".00001e-1075";
    assert!(above.parse::<f64>().unwrap() > 0.0);
    assert!(is_positive_text(&above));
}

#[test]
fn each_fault_of_a_design_is_named() {
    let fault = |text: &str| read_design(text).unwrap_err();
    assert_eq!(fault("(pcb"), DsnError::Syntax(SexprError::Unterminated));
    assert_eq!(fault("(board)"), DsnError::NoBoard);
    assert_eq!(fault("(pcb)"), DsnError::NoResolution);
    assert_eq!(fault("(pcb (resolution))"), DsnError::NoUnit);
    assert_eq!(fault("(pcb (resolution um x))"), DsnError::NoDivisor);
    assert_eq!(
        fault("(pcb (resolution um 0))"),
        DsnError::BadDivisor("0".to_string())
    );
    assert_eq!(
        fault("(pcb (resolution ell 1))"),
        DsnError::UnknownUnit("ell".to_string())
    );
    assert_eq!(fault("(pcb (resolution um 1))"), DsnError::NoStructure);
    assert_eq!(fault(&bare("")), DsnError::NoBoundary);
    assert_eq!(fault(&bare("(boundary)")), DsnError::NoCoordinates);
    assert_eq!(
        fault(&bare("(boundary (rect pcb 0 0 1))")),
        DsnError::NoCoordinates
    );
    assert!(read_design(&bare(EDGE)).is_ok());
    assert!(read_design(&format!("(x {})", bare(EDGE))).is_ok());
}

#[test]
fn units_are_known_by_their_names() {
    for (unit, nanometres) in [
        ("mm", 1_000_000),
        ("um", 1_000),
        ("inch", 25_400_000),
        ("mil", 25_400),
    ] {
        let text = format!("(pcb (resolution {unit} 10) (structure {EDGE}))");
        assert_eq!(read_design(&text).unwrap().resolution.nanometres, nanometres);
    }
}

#[test]
fn a_board_without_layers_has_one() {
    let design = read_design(&bare(EDGE)).unwrap();
    assert_eq!(design.layer_map.len(), 1);
    assert_eq!(design.layer_map.name(0), "top");
    assert!(design.signal_layers.is_empty());
}

#[test]
fn power_layers_carry_no_signals() {
    let text = bare(&format!(
        "(layer A (type signal)) (layer P (type power)) (layer B (type signal)) {EDGE}"
    ));
    assert_eq!(read_design(&text).unwrap().signal_layers, vec!["A", "B"]);
    let text = bare(&format!("(layer A) (layer B) {EDGE}"));
    assert_eq!(read_design(&text).unwrap().signal_layers, vec!["A", "B"]);
    let text = bare(&format!("(layer A (type power)) (layer B (type power)) {EDGE}"));
    assert!(read_design(&text).unwrap().signal_layers.is_empty());
}

#[test]
fn pins_come_in_the_order_of_their_names_and_once() {
    let text = format!(
        "(pcb x (resolution um 10) (structure (layer A) {EDGE})
            (placement
              (component i (place Z 0 0) (place B 1 1 front 0) (place B 7 8 BACK 90)))
            (library (image i (pin p 2 0 0) (pin p 10 0 0) (pin p (rotate 90) 1 0 0))))"
    );
    let design = read_design(&text).unwrap();
    let labels: Vec<String> = design
        .pins
        .iter()
        .map(|p| format!("{}-{}", p.at.reference, p.pin.id))
        .collect();
    assert_eq!(labels, vec!["B-1", "B-10", "B-2", "Z-1", "Z-10", "Z-2"]);
    assert_eq!(design.components, 3);
    assert_eq!(design.pins[0].at.x, "7");
    assert!(design.pins[0].at.back);
    assert_eq!(design.pins[0].at.rot.as_deref(), Some("90"));
    assert_eq!(design.pins[0].pin.rotation.as_deref(), Some("90"));
    assert!(design.pins[0].pad.is_none());
    assert_eq!(design.pins[0].layer, "A");
}

#[test]
fn the_last_net_of_a_pin_counts() {
    let text = format!(
        "(pcb x (resolution um 10) (structure {EDGE})
            (network (net N (pins A-1 A-2)) (net M (pins A-1 bad))))"
    );
    let design = read_design(&text).unwrap();
    assert_eq!(design.pin_net("A-1"), Some("M"));
    assert_eq!(design.pin_net("A-2"), Some("N"));
    assert_eq!(design.pin_net("bad"), None);
    assert_eq!(design.nets_skipped_small, 2);
}

#[test]
fn pads_on_layers_that_the_board_lacks_are_on_top() {
    let map = LayerMap::from_names(vec!["F".into(), "I".into(), "B".into()]);
    let on = |declared: &[&str]| {
        pad_layer_names(&declared.iter().map(|s| s.to_string()).collect(), &map)
    };
    assert_eq!(on(&["X"]), vec!["F"]);
    assert_eq!(on(&[]), vec!["F"]);
    assert_eq!(on(&["B", "F", "B"]), vec!["F", "B"]);
    assert_eq!(on(&["X", "ALL"]), vec!["F", "I", "B"]);
    assert_eq!(map.index_of("B"), Some(2));
    assert_eq!(map.index_of("X"), None);
}

#[test]
fn vias_join_what_their_spans_cover() {
    let text = bare(&format!(
        "(layer A) (layer B) (layer C) (layer D) (via v w) {EDGE}"
    ))
    .replace(
        "(structure",
        "(library (padstack v (shape (circle A 1)) (shape (circle B 1)))
                  (padstack w (shape (rect C 0 0 1 1)) (shape (rect D 0 0 1 1))))
         (structure",
    );
    let design = read_design(&text).unwrap();
    assert_eq!(design.via_model.allowed, Some(vec![(0, 1), (2, 3)]));
    assert_eq!(design.vias_declared, 2);
    assert_eq!(design.via_pads.len(), 2);
}

#[test]
fn numbers_are_read_as_numbers() {
    for text in [
        "0", "-1", "+1.5", ".5", "5.", "1e9", "1E-9", "-1.5e+3", "inf", "-Infinity", "NaN",
    ] {
        assert!(is_numeric(text), "{text}");
        assert!(text.parse::<f64>().is_ok(), "{text}");
    }
    for text in [
        "", "+", ".", "e5", "1e", "1e+", "1.2.3", "0x10", "1 ", "in", "infin", "--1", "1,5",
    ] {
        assert!(!is_numeric(text), "{text}");
        assert!(text.parse::<f64>().is_err(), "{text}");
    }
}

#[test]
fn a_quote_before_a_closing_parenthesis_is_a_word() {
    for text in ["(string_quote \")", "(string_quote \" )", "(string_quote \"\n\t )"] {
        assert_eq!(tokenize(text), vec!["(", "string_quote", "\"", ")"]);
    }
    assert_eq!(tokenize("(a \" ) \" b)"), vec!["(", "a", "\"", ")", " b)"]);
    assert_eq!(tokenize("(a \" x )\" b)"), vec!["(", "a", " x )", "b", ")"]);
    assert_eq!(tokenize("\" "), vec![" "]);
}

#[test]
fn tokens_put_together_are_the_text_without_white_space() {
    let text = " (a b(c\td)\n(e) )f";
    let tokens = tokenize(text);
    assert_eq!(
        tokens,
        vec!["(", "a", "b", "(", "c", "d", ")", "(", "e", ")", ")", "f"]
    );
    let visible: String = text.chars().filter(|c| !c.is_whitespace()).collect();
    assert_eq!(tokens.concat(), visible);
}

#[test]
fn nodes_are_words_and_closed_lists() {
    let tokens: Vec<String> = ["a", "(", "b", ")", ")", "(", "c"]
        .iter()
        .map(|s| s.to_string())
        .collect();
    let read = |start: usize| {
        let mut pos = start;
        let node = parse_node(&tokens, &mut pos);
        (node, pos)
    };
    assert_eq!(read(0), (Ok(Sexpr::Atom("a".to_string())), 1));
    assert_eq!(
        read(1),
        (Ok(Sexpr::List(vec![Sexpr::Atom("b".to_string())])), 4)
    );
    assert_eq!(read(4), (Err(SexprError::UnexpectedClose), 4));
    assert_eq!(read(5), (Err(SexprError::Unterminated), 7));
    assert_eq!(read(7), (Err(SexprError::UnexpectedEnd), 7));
    assert_eq!(read(99), (Err(SexprError::UnexpectedEnd), 99));
    assert!(parse_sexpr("(a (b) c)").is_ok());
    assert!(parse_sexpr("(a)(b)").is_err());
    assert!(parse_sexpr("(a").is_err());
}

#[test]
fn vias_are_counted_once() {
    let text = bare(&format!("(layer F.Cu (type signal)) {EDGE} (via v v w)"));
    assert_eq!(read_design(&text).unwrap().vias_declared, 2);
    let text = bare(&format!("(layer F.Cu (type signal)) {EDGE} (via v v)"));
    assert_eq!(read_design(&text).unwrap().vias_declared, 1);
}

#[test]
fn documents_that_differ_in_the_factor_say_the_same_but_for_it() {
    let read = |factor: &str| {
        read_design(&format!(
            "(pcb x (resolution um {factor}) (structure (layer A) {EDGE} (rule (width 7)))
                (placement (component i (place B 1 1 front 0)))
                (library (image i (pin p 1 0 0) (pin p 2 3 4)))
                (network (net n (pins B-1 B-2)) (net m (pins B-1))))"
        ))
        .unwrap()
    };
    let (a, b) = (read("10"), read("1000"));
    assert_eq!(a.resolution.divisor, "10");
    assert_eq!(b.resolution.divisor, "1000");
    assert_eq!(a.resolution.unit, b.resolution.unit);
    assert_eq!(a.boundary, b.boundary);
    assert_eq!(a.width, b.width);
    assert_eq!(a.pins, b.pins);
    assert_eq!(a.connections, b.connections);
    assert_eq!(a.connections.len() + a.nets_skipped_small, 2);
}
