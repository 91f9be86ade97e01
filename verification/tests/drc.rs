//! Checking the rules of a board, with measurements in floating point.
use metalroute::drc::{
    in_stack_via_span, nets_conflict, ordered_nets, required_clearance, Copper, DrcBoard, DrcRules,
    DrcSummary, LayerKind, Pad, PadClearances, Segment, Via, Violation, ViolationClass,
};
use metalroute::drc_pairs::{near_pairs, stamp_board, suspect_pairs, Bin, Stamp};
use metalroute::drc_rank::{
    arbitrate, group_leaders, sort_violations, worst_pairs, PairRow, RowNumbers, ViaRow,
};
use metalroute::drc_report::{
    clearance_rows, plane_rows, report, ring_rows, via_records, via_rows, CloseCall, Findings,
    Place, Record, Shortfall, ViaCall, ViaCheck,
};
use metalroute::drc_sites::{merge_sites, sort_vias, Neighbour, ViaNumbers};
use metalroute::sorting::sorted_order;
use std::collections::{BTreeMap, HashMap};

/// Floating-point slack: a gap breaks a rule only where more than this is missing.
const EPS: f64 = 1e-9;

/// Vias of a net that are no further apart than this are records of one hole.
const SAME_VIA_LOCATION_EPS: f64 = 5e-3;

/// A number that is ordered as the measurement is.
fn rank(x: f64) -> i64 {
    let bits = x.to_bits() as i64;
    bits ^ (((bits >> 63) as u64) >> 1) as i64
}

/// The place on the grid of reports.
fn quantise(x: f64) -> i64 {
    (x / 1e-6).round() as i64
}

/// Euclidean distance of two points.
fn dist(p: (f64, f64), q: (f64, f64)) -> f64 {
    ((p.0 - q.0).powi(2) + (p.1 - q.1).powi(2)).sqrt()
}

/// Distance of a point from a segment.
fn point_seg_dist(p: (f64, f64), a: (f64, f64), b: (f64, f64)) -> f64 {
    let (abx, aby) = (b.0 - a.0, b.1 - a.1);
    let len2 = abx * abx + aby * aby;
    if len2 <= f64::MIN_POSITIVE {
        return dist(p, a);
    }
    let t = (((p.0 - a.0) * abx + (p.1 - a.1) * aby) / len2).clamp(0.0, 1.0);
    dist(p, (a.0 + t * abx, a.1 + t * aby))
}

/// Distance of two segments; zero where they cross.
fn seg_seg_dist(p0: (f64, f64), p1: (f64, f64), q0: (f64, f64), q1: (f64, f64)) -> f64 {
    let d1 = (p1.0 - p0.0, p1.1 - p0.1);
    let d2 = (q1.0 - q0.0, q1.1 - q0.1);
    let r = (p0.0 - q0.0, p0.1 - q0.1);
    let a = d1.0 * d1.0 + d1.1 * d1.1;
    let e = d2.0 * d2.0 + d2.1 * d2.1;
    let f = d2.0 * r.0 + d2.1 * r.1;
    if a <= f64::MIN_POSITIVE && e <= f64::MIN_POSITIVE {
        return dist(p0, q0);
    }
    let (mut s, t);
    if a <= f64::MIN_POSITIVE {
        s = 0.0;
        t = (f / e).clamp(0.0, 1.0);
    } else {
        let c = d1.0 * r.0 + d1.1 * r.1;
        if e <= f64::MIN_POSITIVE {
            t = 0.0;
            s = (-c / a).clamp(0.0, 1.0);
        } else {
            let b = d1.0 * d2.0 + d1.1 * d2.1;
            let denom = a * e - b * b;
            s = if denom > f64::MIN_POSITIVE {
                ((b * f - c * e) / denom).clamp(0.0, 1.0)
            } else {
                0.0
            };
            let mut tt = (b * s + f) / e;
            if tt < 0.0 {
                tt = 0.0;
                s = (-c / a).clamp(0.0, 1.0);
            } else if tt > 1.0 {
                tt = 1.0;
                s = ((b - c) / a).clamp(0.0, 1.0);
            }
            t = tt;
        }
    }
    dist(
        (p0.0 + s * d1.0, p0.1 + s * d1.1),
        (q0.0 + t * d2.0, q0.1 + t * d2.1),
    )
}

/// Gap between a point and a rectangle; zero inside.
fn point_rect_gap(p: (f64, f64), c: (f64, f64), w: f64, h: f64) -> f64 {
    let ox = ((c.0 - p.0).abs() - w / 2.0).max(0.0);
    let oy = ((c.1 - p.1).abs() - h / 2.0).max(0.0);
    if ox == 0.0 && oy == 0.0 {
        0.0
    } else {
        (ox * ox + oy * oy).sqrt()
    }
}

/// Gap between a segment and a rectangle.
fn seg_rect_gap(p0: (f64, f64), p1: (f64, f64), c: (f64, f64), w: f64, h: f64) -> f64 {
    if point_rect_gap(p0, c, w, h) == 0.0 || point_rect_gap(p1, c, w, h) == 0.0 {
        return 0.0;
    }
    let (hw, hh) = (w / 2.0, h / 2.0);
    let corners = [
        (c.0 - hw, c.1 - hh),
        (c.0 + hw, c.1 - hh),
        (c.0 + hw, c.1 + hh),
        (c.0 - hw, c.1 + hh),
    ];
    (0..4)
        .map(|i| seg_seg_dist(p0, p1, corners[i], corners[(i + 1) % 4]))
        .fold(f64::INFINITY, f64::min)
}

/// Gap between two rectangles.
fn rect_rect_gap(c0: (f64, f64), w0: f64, h0: f64, c1: (f64, f64), w1: f64, h1: f64) -> f64 {
    let ox = ((c0.0 - c1.0).abs() - (w0 + w1) / 2.0).max(0.0);
    let oy = ((c0.1 - c1.1).abs() - (h0 + h1) / 2.0).max(0.0);
    (ox * ox + oy * oy).sqrt()
}

/// The outline of a piece of copper, without what it is inflated by.
#[derive(Clone, Debug)]
enum Shape {
    Segment { a: (f64, f64), b: (f64, f64) },
    Point { c: (f64, f64) },
    Rect { c: (f64, f64), w: f64, h: f64 },
}

/// A piece of copper on a layer.
#[derive(Clone, Debug)]
struct Feature {
    net: Option<String>,
    shape: Shape,
    inflate: f64,
}

impl Feature {
    fn segment(s: &Segment<f64>) -> Self {
        Feature {
            net: Some(s.net.clone()),
            shape: Shape::Segment { a: s.a, b: s.b },
            inflate: s.width / 2.0,
        }
    }

    fn pad(p: &Pad<f64>) -> Self {
        Feature {
            net: p.net.clone(),
            shape: Shape::Rect {
                c: p.center,
                w: p.width,
                h: p.height,
            },
            inflate: 0.0,
        }
    }

    fn via(v: &Via<f64>) -> Self {
        Feature {
            net: Some(v.net.clone()),
            shape: Shape::Point { c: v.center },
            inflate: v.pad_diameter / 2.0,
        }
    }

    fn of(board: &DrcBoard<f64>, stamp: &Stamp) -> Self {
        match stamp.kind {
            Copper::Trace => Feature::segment(&board.segments[stamp.index]),
            Copper::Pad => Feature::pad(&board.pads[stamp.index]),
            Copper::Via => Feature::via(&board.vias[stamp.index]),
        }
    }

    fn kind(&self) -> Copper {
        match self.shape {
            Shape::Segment { .. } => Copper::Trace,
            Shape::Point { .. } => Copper::Via,
            Shape::Rect { .. } => Copper::Pad,
        }
    }

    /// The middle.
    fn centroid(&self) -> (f64, f64) {
        match &self.shape {
            Shape::Segment { a, b } => ((a.0 + b.0) * 0.5, (a.1 + b.1) * 0.5),
            Shape::Point { c } => *c,
            Shape::Rect { c, .. } => *c,
        }
    }

    /// How far it reaches from the middle.
    fn extent(&self) -> f64 {
        match &self.shape {
            Shape::Segment { a, b } => dist(*a, *b) / 2.0 + self.inflate,
            Shape::Point { .. } => self.inflate,
            Shape::Rect { w, h, .. } => (w.max(*h)) / 2.0,
        }
    }

    /// A box around it, where its size is a proper one.
    fn copper_aabb(&self) -> Option<(f64, f64, f64, f64)> {
        if !self.inflate.is_finite() || self.inflate < 0.0 {
            return None;
        }
        let r = self.inflate;
        let bounds = match &self.shape {
            Shape::Segment { a, b } => (
                a.0.min(b.0) - r,
                a.1.min(b.1) - r,
                a.0.max(b.0) + r,
                a.1.max(b.1) + r,
            ),
            Shape::Point { c } => (c.0 - r, c.1 - r, c.0 + r, c.1 + r),
            Shape::Rect { c, w, h } => {
                if !w.is_finite() || !h.is_finite() || *w < 0.0 || *h < 0.0 {
                    return None;
                }
                (c.0 - w / 2.0, c.1 - h / 2.0, c.0 + w / 2.0, c.1 + h / 2.0)
            }
        };
        [bounds.0, bounds.1, bounds.2, bounds.3]
            .into_iter()
            .all(f64::is_finite)
            .then_some(bounds)
    }
}

/// Whether the boxes around two pieces are at least that far apart.
fn aabbs_separated_by_at_least(a: &Feature, b: &Feature, threshold: f64) -> bool {
    if !threshold.is_finite() || threshold <= 0.0 {
        return false;
    }
    let (Some(a), Some(b)) = (a.copper_aabb(), b.copper_aabb()) else {
        return false;
    };
    let x = (a.0 - b.2).max(b.0 - a.2);
    let y = (a.1 - b.3).max(b.1 - a.3);
    x >= threshold || y >= threshold
}

/// The gap between two pieces of copper; below zero where round copper overlaps, and
/// zero where rectangles do.
fn feature_gap(a: &Feature, b: &Feature) -> f64 {
    match (&a.shape, &b.shape) {
        (Shape::Segment { a: p0, b: p1 }, Shape::Segment { a: q0, b: q1 }) => {
            seg_seg_dist(*p0, *p1, *q0, *q1) - a.inflate - b.inflate
        }
        (Shape::Segment { a: p0, b: p1 }, Shape::Point { c })
        | (Shape::Point { c }, Shape::Segment { a: p0, b: p1 }) => {
            point_seg_dist(*c, *p0, *p1) - a.inflate - b.inflate
        }
        (Shape::Point { c: c0 }, Shape::Point { c: c1 }) => dist(*c0, *c1) - a.inflate - b.inflate,
        (Shape::Rect { c, w, h }, Shape::Point { c: p }) => {
            point_rect_gap(*p, *c, *w, *h) - b.inflate
        }
        (Shape::Point { c: p }, Shape::Rect { c, w, h }) => {
            point_rect_gap(*p, *c, *w, *h) - a.inflate
        }
        (Shape::Rect { c, w, h }, Shape::Segment { a: p0, b: p1 }) => {
            seg_rect_gap(*p0, *p1, *c, *w, *h) - b.inflate
        }
        (Shape::Segment { a: p0, b: p1 }, Shape::Rect { c, w, h }) => {
            seg_rect_gap(*p0, *p1, *c, *w, *h) - a.inflate
        }
        (
            Shape::Rect {
                c: c0,
                w: w0,
                h: h0,
            },
            Shape::Rect {
                c: c1,
                w: w1,
                h: h1,
            },
        ) => rect_rect_gap(*c0, *w0, *h0, *c1, *w1, *h1),
    }
}

/// A place in numbers.
fn place(at: (f64, f64)) -> Place<f64> {
    Place {
        across: at.0,
        up: at.1,
        grid_x: quantise(at.0),
        grid_y: quantise(at.1),
        x: rank(at.0),
        y: rank(at.1),
    }
}

/// How a measurement falls short of a rule, if it does.
fn shortfall(measured: f64, required: f64) -> Option<Shortfall<f64>> {
    (measured < required - EPS).then(|| as_shortfall(measured, required))
}

/// A measurement that falls short of a rule, in numbers.
fn as_shortfall(measured: f64, required: f64) -> Shortfall<f64> {
    Shortfall {
        measured,
        required,
        measured_rank: rank(measured),
        required_rank: rank(required),
        deficit: rank(measured - required),
    }
}

/// In the middle between two places.
fn between(a: (f64, f64), b: (f64, f64)) -> (f64, f64) {
    ((a.0 + b.0) * 0.5, (a.1 + b.1) * 0.5)
}

/// How two pieces of copper are too close, if they are. Pieces whose boxes are far
/// apart are not measured.
fn closeness(a: &Feature, b: &Feature, required: f64) -> Option<Shortfall<f64>> {
    if aabbs_separated_by_at_least(a, b, required - EPS) {
        None
    } else {
        shortfall(feature_gap(a, b), required)
    }
}

/// The square that a point is in.
fn bin_of(layer: u32, at: (f64, f64), cell: f64) -> Bin {
    Bin {
        layer,
        x: (at.0 / cell).floor() as i64,
        y: (at.1 / cell).floor() as i64,
    }
}

fn same_physical_via_location(a: &Via<f64>, b: &Via<f64>) -> bool {
    a.net == b.net && dist(a.center, b.center) <= SAME_VIA_LOCATION_EPS
}

/// The vias of each hole, by their places in the list.
fn physical_via_sites(vias: &Vec<Via<f64>>) -> Vec<Vec<usize>> {
    let numbers: Vec<ViaNumbers> = vias
        .iter()
        .map(|v| ViaNumbers {
            x: rank(v.center.0),
            y: rank(v.center.1),
            pad: rank(v.pad_diameter),
            drill: rank(v.drill_diameter),
            antipad: v.antipad_radius.map(rank),
        })
        .collect();
    let order = sort_vias(vias, &numbers);
    let mut net_ids: HashMap<&str, u32> = HashMap::new();
    let bins: Vec<Bin> = order
        .iter()
        .map(|&i| {
            let next = net_ids.len() as u32;
            let id = *net_ids.entry(vias[i].net.as_str()).or_insert(next);
            bin_of(id, vias[i].center, SAME_VIA_LOCATION_EPS)
        })
        .collect();
    let mut near: Vec<Vec<Neighbour>> = vec![Vec::new(); order.len()];
    for (p, k) in near_pairs(&bins) {
        let (a, b) = (&vias[order[p]], &vias[order[k]]);
        if same_physical_via_location(a, b) {
            near[k].push(Neighbour {
                at: p,
                same: a == b,
            });
        }
    }
    merge_sites(&near)
        .into_iter()
        .map(|site| site.into_iter().map(|p| order[p]).collect())
        .collect()
}

/// The pieces of copper that are too close.
fn close_calls(
    board: &DrcBoard<f64>,
    special: Option<PadClearances<f64>>,
    stamps: &Vec<Stamp>,
) -> Vec<CloseCall<f64>> {
    let features: Vec<Feature> = stamps.iter().map(|s| Feature::of(board, s)).collect();
    let max_extent = features.iter().map(Feature::extent).fold(0.0_f64, f64::max);
    let largest = special.map_or(board.rules.clearance, |rules| {
        board
            .rules
            .clearance
            .max(rules.trace_to_pad)
            .max(rules.via_to_pad)
            .max(rules.pad_to_pad)
    });
    let cell = (largest + 2.0 * max_extent).max(f64::MIN_POSITIVE);
    let bins: Vec<Bin> = stamps
        .iter()
        .zip(&features)
        .map(|(s, f)| bin_of(s.layer, f.centroid(), cell))
        .collect();
    suspect_pairs(board, stamps, &bins)
        .into_iter()
        .filter_map(|(i, j)| {
            let (a, b) = (&features[i], &features[j]);
            let required = required_clearance(board.rules.clearance, special, a.kind(), b.kind());
            closeness(a, b, required).map(|short| CloseCall {
                i,
                j,
                place: place(between(a.centroid(), b.centroid())),
                short,
            })
        })
        .collect()
}

/// What was measured between vias in squares that touch.
fn via_calls(
    board: &DrcBoard<f64>,
    hole_clearance: f64,
    records: &[Record],
) -> Vec<ViaCall<f64>> {
    let vias: Vec<&Via<f64>> = records.iter().map(|r| &board.vias[r.via]).collect();
    let widest = |size: fn(&Via<f64>) -> f64| {
        vias.iter()
            .map(|via| size(via) / 2.0)
            .fold(0.0_f64, f64::max)
    };
    let cell = (hole_clearance + 2.0 * widest(|v| v.drill_diameter))
        .max(board.rules.clearance + 2.0 * widest(|v| v.pad_diameter))
        .max(f64::MIN_POSITIVE);
    let bins: Vec<Bin> = vias
        .iter()
        .map(|via| bin_of(0, via.center, cell))
        .collect();
    near_pairs(&bins)
        .into_iter()
        .map(|(i, j)| {
            let (a, b) = (vias[i], vias[j]);
            let gap = |a_size: f64, b_size: f64| {
                dist(a.center, b.center) - a_size / 2.0 - b_size / 2.0
            };
            let apart = |a_size: f64, b_size: f64, required: f64| {
                a_size / 2.0 + b_size / 2.0 + required
            };
            let hole_apart = apart(a.drill_diameter, b.drill_diameter, hole_clearance);
            let copper_apart = apart(a.pad_diameter, b.pad_diameter, board.rules.clearance);
            ViaCall {
                i,
                j,
                same_place: same_physical_via_location(a, b),
                place: place((
                    (a.center.0 + b.center.0) / 2.0,
                    (a.center.1 + b.center.1) / 2.0,
                )),
                hole: shortfall(gap(a.drill_diameter, b.drill_diameter), hole_clearance),
                hole_centre: rank(hole_apart),
                hole_slack: rank(hole_apart + EPS),
                copper: shortfall(
                    gap(a.pad_diameter, b.pad_diameter),
                    board.rules.clearance,
                ),
                copper_centre: rank(copper_apart),
                copper_slack: rank(copper_apart + EPS),
            }
        })
        .collect()
}

/// What was measured of each via by itself.
fn via_checks(board: &DrcBoard<f64>) -> Vec<ViaCheck<f64>> {
    board
        .vias
        .iter()
        .map(|v| {
            let room = v.drill_diameter / 2.0 + board.rules.plane_antipad;
            let relieved = v.antipad_radius.is_some_and(|r| r >= room - EPS);
            ViaCheck {
                place: place(v.center),
                plane: (!relieved).then(|| as_shortfall(v.antipad_radius.unwrap_or(0.0), room)),
                ring: shortfall(
                    (v.pad_diameter - v.drill_diameter) / 2.0,
                    board.rules.min_annular_ring,
                ),
            }
        })
        .collect()
}

/// The numbers that a violation is sorted by.
fn row_numbers(v: &Violation<f64>) -> RowNumbers {
    RowNumbers {
        grid_x: quantise(v.location.0),
        grid_y: quantise(v.location.1),
        x: rank(v.location.0),
        y: rank(v.location.1),
        measured: rank(v.measured),
        required: rank(v.required),
    }
}

/// The violations in the order of reports.
fn in_report_order(rows: Vec<Violation<f64>>) -> Vec<Violation<f64>> {
    let numbers: Vec<RowNumbers> = rows.iter().map(row_numbers).collect();
    sort_violations(&rows, &numbers)
        .into_iter()
        .map(|i| rows[i].clone())
        .collect()
}

/// The violation of two pieces of copper that are too close.
fn as_violation(layer: u32, a: &Feature, b: &Feature, short: &Shortfall<f64>) -> Violation<f64> {
    Violation {
        class: ViolationClass::Clearance,
        layer,
        location: between(a.centroid(), b.centroid()),
        nets: ordered_nets(&a.net, &b.net),
        measured: short.measured,
        required: short.required,
    }
}

/// The checks of a board.
trait Check {
    fn check(&self) -> Vec<Violation<f64>>;
    fn check_with_pad_clearances(
        &self,
        trace_to_pad: f64,
        via_to_pad: f64,
        pad_to_pad: Option<f64>,
        hole_to_hole: Option<f64>,
    ) -> Vec<Violation<f64>>;
    fn check_with(&self, special: Option<PadClearances<f64>>) -> Vec<Violation<f64>>;
    fn test_clearance_pair(&self, layer: u32, a: &Feature, b: &Feature, out: &mut Vec<Violation<f64>>);
    fn test_clearance_pair_exact(
        &self,
        layer: u32,
        a: &Feature,
        b: &Feature,
        out: &mut Vec<Violation<f64>>,
    );
}

impl Check for DrcBoard<f64> {
    fn check(&self) -> Vec<Violation<f64>> {
        self.check_with(None)
    }

    fn check_with_pad_clearances(
        &self,
        trace_to_pad: f64,
        via_to_pad: f64,
        pad_to_pad: Option<f64>,
        hole_to_hole: Option<f64>,
    ) -> Vec<Violation<f64>> {
        let valid = |value: f64| {
            if value.is_finite() && value >= 0.0 {
                value
            } else {
                self.rules.clearance
            }
        };
        self.check_with(Some(PadClearances {
            trace_to_pad: valid(trace_to_pad),
            via_to_pad: valid(via_to_pad),
            pad_to_pad: pad_to_pad.map_or(self.rules.clearance, valid),
            via_hole_to_hole: hole_to_hole.map(valid),
        }))
    }

    fn check_with(&self, special: Option<PadClearances<f64>>) -> Vec<Violation<f64>> {
        let hole = special.and_then(|rules| rules.via_hole_to_hole);
        let sites = hole.map(|_| physical_via_sites(&self.vias));
        let stamps = stamp_board(self, &sites);
        let records = via_records(&sites.unwrap_or_default());
        let vias = hole.map_or_else(Vec::new, |clearance| via_calls(self, clearance, &records));
        let found = Findings {
            close: close_calls(self, special, &stamps),
            records,
            vias,
            checks: via_checks(self),
        };
        report(self, &stamps, &found)
    }

    fn test_clearance_pair(&self, layer: u32, a: &Feature, b: &Feature, out: &mut Vec<Violation<f64>>) {
        if nets_conflict(&a.net, &b.net) {
            let short = closeness(a, b, self.rules.clearance);
            out.extend(short.map(|short| as_violation(layer, a, b, &short)));
        }
    }

    fn test_clearance_pair_exact(
        &self,
        layer: u32,
        a: &Feature,
        b: &Feature,
        out: &mut Vec<Violation<f64>>,
    ) {
        if nets_conflict(&a.net, &b.net) {
            let short = shortfall(feature_gap(a, b), self.rules.clearance);
            out.extend(short.map(|short| as_violation(layer, a, b, &short)));
        }
    }
}

fn rules() -> DrcRules<f64> {
    DrcRules {
        clearance: 0.2,
        plane_antipad: 0.1,
        min_annular_ring: 0.05,
    }
}

fn seg(net: &str, layer: u32, a: (f64, f64), b: (f64, f64), width: f64) -> Segment<f64> {
    Segment {
        net: net.to_string(),
        layer,
        a,
        b,
        width,
    }
}

fn classes(vs: &[Violation<f64>], class: ViolationClass) -> usize {
    vs.iter().filter(|v| v.class == class).count()
}

#[test]
fn parallel_segments_violate_when_too_close() {
    let board = DrcBoard {
        layers: vec![LayerKind::Signal],
        segments: vec![
            seg("A", 0, (0.0, 0.0), (10.0, 0.0), 0.1),
            seg("B", 0, (0.0, 0.25), (10.0, 0.25), 0.1),
        ],
        pads: vec![],
        vias: vec![],
        rules: rules(),
    };
    let v = board.check();
    assert_eq!(classes(&v, ViolationClass::Clearance), 1);
    let c = &v[0];
    assert!(
        (c.measured - 0.15).abs() < 1e-9,
        "measured = {}",
        c.measured
    );
    assert_eq!(c.required, 0.2);
    assert_eq!(c.layer, 0);
}

#[test]
fn segments_exactly_at_clearance_pass() {
    let board = DrcBoard {
        layers: vec![LayerKind::Signal],
        segments: vec![
            seg("A", 0, (0.0, 0.0), (10.0, 0.0), 0.1),
            seg("B", 0, (0.0, 0.30), (10.0, 0.30), 0.1),
        ],
        pads: vec![],
        vias: vec![],
        rules: rules(),
    };
    assert!(board.check().is_empty(), "at-clearance must not fire");
}

#[test]
fn segments_above_clearance_pass() {
    let board = DrcBoard {
        layers: vec![LayerKind::Signal],
        segments: vec![
            seg("A", 0, (0.0, 0.0), (10.0, 0.0), 0.1),
            seg("B", 0, (0.0, 1.0), (10.0, 1.0), 0.1),
        ],
        pads: vec![],
        vias: vec![],
        rules: rules(),
    };
    assert!(board.check().is_empty());
}

#[test]
fn same_net_touching_is_clean() {
    let board = DrcBoard {
        layers: vec![LayerKind::Signal],
        segments: vec![
            seg("NET1", 0, (0.0, 0.0), (10.0, 0.0), 0.2),
            seg("NET1", 0, (5.0, 0.0), (5.0, 5.0), 0.2),
        ],
        pads: vec![],
        vias: vec![],
        rules: rules(),
    };
    assert!(board.check().is_empty(), "same net never conflicts");
}

#[test]
fn different_layers_dont_interact() {
    let board = DrcBoard {
        layers: vec![LayerKind::Signal, LayerKind::Signal],
        segments: vec![
            seg("A", 0, (0.0, 0.0), (10.0, 0.0), 0.2),
            seg("B", 1, (0.0, 0.0), (10.0, 0.0), 0.2),
        ],
        pads: vec![],
        vias: vec![],
        rules: rules(),
    };
    assert!(
        board.check().is_empty(),
        "features on different layers must not conflict"
    );
}

#[test]
fn none_net_pad_conflicts_with_everything() {
    let board = DrcBoard {
        layers: vec![LayerKind::Signal],
        segments: vec![seg("A", 0, (0.0, 0.0), (10.0, 0.0), 0.1)],
        pads: vec![Pad {
            net: None,
            layer: 0,
            center: (5.0, 0.1),
            width: 0.2,
            height: 0.2,
        }],
        vias: vec![],
        rules: rules(),
    };
    let v = board.check();
    assert_eq!(classes(&v, ViolationClass::Clearance), 1);
    assert!(v[0].nets.0.is_empty() || v[0].nets.1.is_empty());
}

#[test]
fn via_through_foreign_plane_fires_without_antipad() {
    let board = DrcBoard {
        layers: vec![
            LayerKind::Signal,
            LayerKind::Plane {
                net: "GND".to_string(),
            },
            LayerKind::Signal,
        ],
        segments: vec![],
        pads: vec![],
        vias: vec![Via {
            net: "NET1".to_string(),
            center: (1.0, 1.0),
            pad_diameter: 0.6,
            drill_diameter: 0.3,
            from_layer: 0,
            to_layer: 2,
            antipad_radius: None,
        }],
        rules: rules(),
    };
    let v = board.check();
    assert_eq!(classes(&v, ViolationClass::ViaThroughPlane), 1);
    let tp = v
        .iter()
        .find(|x| x.class == ViolationClass::ViaThroughPlane)
        .unwrap();
    assert_eq!(tp.layer, 1);
    assert_eq!(tp.nets, ("NET1".to_string(), "GND".to_string()));
    assert_eq!(tp.measured, 0.0);
    assert!((tp.required - 0.25).abs() < 1e-9);
}

#[test]
fn via_through_plane_clean_with_large_antipad() {
    let board = DrcBoard {
        layers: vec![
            LayerKind::Signal,
            LayerKind::Plane {
                net: "GND".to_string(),
            },
            LayerKind::Signal,
        ],
        segments: vec![],
        pads: vec![],
        vias: vec![Via {
            net: "NET1".to_string(),
            center: (1.0, 1.0),
            pad_diameter: 0.6,
            drill_diameter: 0.3,
            from_layer: 0,
            to_layer: 2,
            antipad_radius: Some(0.25),
        }],
        rules: rules(),
    };
    assert_eq!(
        classes(&board.check(), ViolationClass::ViaThroughPlane),
        0,
        "antipad exactly meeting the rule clears the short"
    );
}

#[test]
fn via_through_same_net_plane_is_clean() {
    let board = DrcBoard {
        layers: vec![
            LayerKind::Signal,
            LayerKind::Plane {
                net: "GND".to_string(),
            },
            LayerKind::Signal,
        ],
        segments: vec![],
        pads: vec![],
        vias: vec![Via {
            net: "GND".to_string(),
            center: (1.0, 1.0),
            pad_diameter: 0.6,
            drill_diameter: 0.3,
            from_layer: 0,
            to_layer: 2,
            antipad_radius: None,
        }],
        rules: rules(),
    };
    assert_eq!(
        classes(&board.check(), ViolationClass::ViaThroughPlane),
        0,
        "a via on the plane's own net never shorts it"
    );
}

#[test]
fn endpoint_plane_is_a_short() {
    let board = DrcBoard {
        layers: vec![
            LayerKind::Plane {
                net: "GND".to_string(),
            },
            LayerKind::Signal,
        ],
        segments: vec![],
        pads: vec![],
        vias: vec![Via {
            net: "NET1".to_string(),
            center: (1.0, 1.0),
            pad_diameter: 0.6,
            drill_diameter: 0.3,
            from_layer: 0,
            to_layer: 1,
            antipad_radius: None,
        }],
        rules: rules(),
    };
    let v = board.check();
    let tp: Vec<_> = v
        .iter()
        .filter(|x| x.class == ViolationClass::ViaThroughPlane)
        .collect();
    assert_eq!(tp.len(), 1);
    assert_eq!(tp[0].layer, 0, "endpoint plane on layer 0 shorts");
}

#[test]
fn oversized_reversed_via_span_stamps_only_in_stack_layers() {
    let board = DrcBoard {
        layers: vec![LayerKind::Signal, LayerKind::Signal],
        segments: vec![],
        pads: (0..=2)
            .map(|layer| Pad {
                net: Some("PAD".to_string()),
                layer,
                center: (1.0, 1.0),
                width: 0.2,
                height: 0.2,
            })
            .collect(),
        vias: vec![Via {
            net: "VIA".to_string(),
            center: (1.0, 1.0),
            pad_diameter: 0.6,
            drill_diameter: 0.3,
            from_layer: u32::MAX,
            to_layer: 0,
            antipad_radius: None,
        }],
        rules: rules(),
    };

    assert_eq!(in_stack_via_span(&board.vias[0], 2), Some((0, 1)));
    assert_eq!(in_stack_via_span(&board.vias[0], 0), None);
    let findings = board.check();
    assert_eq!(findings.len(), 2, "one via-pad finding per real layer");
    assert!(findings
        .iter()
        .all(|v| v.class == ViolationClass::Clearance));
    assert_eq!(
        findings.iter().map(|v| v.layer).collect::<Vec<_>>(),
        [0, 1],
        "the out-of-stack L2 pad must not see a phantom via pad"
    );
}

#[test]
fn reversing_via_span_preserves_exact_drc_output() {
    let forward = DrcBoard {
        layers: vec![
            LayerKind::Signal,
            LayerKind::Plane {
                net: "GND".to_string(),
            },
            LayerKind::Signal,
        ],
        segments: vec![],
        pads: vec![],
        vias: vec![Via {
            net: "NET1".to_string(),
            center: (1.0, 1.0),
            pad_diameter: 0.30,
            drill_diameter: 0.25,
            from_layer: 0,
            to_layer: 2,
            antipad_radius: None,
        }],
        rules: rules(),
    };
    let mut reversed = forward.clone();
    let via = &mut reversed.vias[0];
    std::mem::swap(&mut via.from_layer, &mut via.to_layer);

    let expected = forward.check();
    assert_eq!(reversed.check(), expected);
    let annular = expected
        .iter()
        .find(|v| v.class == ViolationClass::AnnularRing)
        .expect("fixture must exercise annular reporting");
    assert_eq!(
        annular.layer, 0,
        "annular reports the canonical lower layer"
    );
}

#[test]
fn annular_ring_below_minimum_fires() {
    let board = DrcBoard {
        layers: vec![LayerKind::Signal, LayerKind::Signal],
        segments: vec![],
        pads: vec![],
        vias: vec![Via {
            net: "NET1".to_string(),
            center: (1.0, 1.0),
            pad_diameter: 0.30,
            drill_diameter: 0.25,
            from_layer: 0,
            to_layer: 1,
            antipad_radius: None,
        }],
        rules: rules(),
    };
    let v = board.check();
    let ar = v
        .iter()
        .find(|x| x.class == ViolationClass::AnnularRing)
        .unwrap();
    assert!((ar.measured - 0.025).abs() < 1e-9);
    assert_eq!(ar.required, 0.05);
    assert_eq!(ar.layer, 0);
    assert_eq!(ar.nets.1, "");
}

#[test]
fn annular_ring_at_minimum_passes() {
    let board = DrcBoard {
        layers: vec![LayerKind::Signal, LayerKind::Signal],
        segments: vec![],
        pads: vec![],
        vias: vec![Via {
            net: "NET1".to_string(),
            center: (1.0, 1.0),
            pad_diameter: 0.40,
            drill_diameter: 0.30,
            from_layer: 0,
            to_layer: 1,
            antipad_radius: None,
        }],
        rules: rules(),
    };
    assert_eq!(classes(&board.check(), ViolationClass::AnnularRing), 0);
}

fn mixed_board(segs: Vec<Segment<f64>>, pads: Vec<Pad<f64>>, vias: Vec<Via<f64>>) -> DrcBoard<f64> {
    DrcBoard {
        layers: vec![
            LayerKind::Signal,
            LayerKind::Plane {
                net: "GND".to_string(),
            },
            LayerKind::Signal,
        ],
        segments: segs,
        pads,
        vias,
        rules: rules(),
    }
}

fn sample_features() -> (Vec<Segment<f64>>, Vec<Pad<f64>>, Vec<Via<f64>>) {
    let segs = vec![
        seg("A", 0, (0.0, 0.0), (10.0, 0.0), 0.1),
        seg("B", 0, (0.0, 0.25), (10.0, 0.25), 0.1),
        seg("C", 2, (0.0, 0.0), (5.0, 0.0), 0.1),
    ];
    let pads = vec![Pad {
        net: None,
        layer: 0,
        center: (3.0, 0.1),
        width: 0.1,
        height: 0.1,
    }];
    let vias = vec![
        Via {
            net: "NET1".to_string(),
            center: (7.0, 5.0),
            pad_diameter: 0.30,
            drill_diameter: 0.25,
            from_layer: 0,
            to_layer: 2,
            antipad_radius: None,
        },
        Via {
            net: "GND".to_string(),
            center: (8.0, 6.0),
            pad_diameter: 0.6,
            drill_diameter: 0.3,
            from_layer: 0,
            to_layer: 2,
            antipad_radius: None,
        },
    ];
    (segs, pads, vias)
}

#[test]
fn determinism_same_board_twice() {
    let (s, p, v) = sample_features();
    let b1 = mixed_board(s.clone(), p.clone(), v.clone());
    let b2 = mixed_board(s, p, v);
    assert_eq!(b1.check(), b2.check());
    let r = b1.check();
    assert!(classes(&r, ViolationClass::Clearance) >= 1);
    assert!(classes(&r, ViolationClass::ViaThroughPlane) >= 1);
    assert!(classes(&r, ViolationClass::AnnularRing) >= 1);
}

#[test]
fn determinism_shuffled_input_same_output() {
    let (s, p, v) = sample_features();
    let baseline = mixed_board(s.clone(), p.clone(), v.clone()).check();

    let mut s2 = s;
    s2.reverse();
    let mut v2 = v;
    v2.reverse();
    let shuffled = mixed_board(s2, p, v2).check();

    assert_eq!(
        baseline, shuffled,
        "shuffling feature input order must yield identical sorted violations"
    );
}

#[test]
fn each_pair_reported_once() {
    let board = DrcBoard {
        layers: vec![LayerKind::Signal],
        segments: vec![
            seg("A", 0, (0.0, 0.0), (10.0, 0.0), 0.1),
            seg("B", 0, (0.0, 0.1), (10.0, 0.1), 0.1),
        ],
        pads: vec![],
        vias: vec![],
        rules: rules(),
    };
    assert_eq!(classes(&board.check(), ViolationClass::Clearance), 1);
}

#[test]
fn geometry_helpers_basic() {
    assert!((dist((0.0, 0.0), (3.0, 4.0)) - 5.0).abs() < 1e-12);
    assert!((point_seg_dist((5.0, 3.0), (0.0, 0.0), (10.0, 0.0)) - 3.0).abs() < 1e-12);
    assert!(
        (seg_seg_dist((0.0, 0.0), (10.0, 0.0), (0.0, 2.0), (10.0, 2.0)) - 2.0).abs() < 1e-12
    );
    assert!(seg_seg_dist((-1.0, 0.0), (1.0, 0.0), (0.0, -1.0), (0.0, 1.0)) < 1e-12);
    assert!((point_rect_gap((1.5, 0.0), (0.0, 0.0), 1.0, 1.0) - 1.0).abs() < 1e-12);
    assert!(point_rect_gap((0.0, 0.0), (0.0, 0.0), 1.0, 1.0) < 1e-12);
}

#[test]
fn colliding_sort_keys_are_stable_under_input_permutation() {
    let segs = vec![
        seg("A", 0, (0.0, 0.0), (10.0, 0.0), 0.1),
        seg("B", 0, (0.0, 0.0), (10.0, 0.0), 0.1),
        seg("A", 0, (0.0, 0.0), (10.0, 0.0), 0.2),
        seg("B", 0, (0.0, 0.0), (10.0, 0.0), 0.3),
    ];
    let board = |segments| DrcBoard {
        layers: vec![LayerKind::Signal],
        segments,
        pads: vec![],
        vias: vec![],
        rules: rules(),
    };
    let expected = board(segs.clone()).check();
    let mut reversed = segs;
    reversed.reverse();
    assert_eq!(expected, board(reversed).check());
}

fn clearance_only_bruteforce(board: &DrcBoard<f64>) -> Vec<Violation<f64>> {
    let mut by_layer: BTreeMap<u32, Vec<Feature>> =
        BTreeMap::new();
    for segment in &board.segments {
        by_layer
            .entry(segment.layer)
            .or_default()
            .push(Feature::segment(segment));
    }
    for pad in &board.pads {
        by_layer
            .entry(pad.layer)
            .or_default()
            .push(Feature::pad(pad));
    }
    let layer_count = board.layers.len() as u32;
    for via in &board.vias {
        let lo = via.from_layer.min(via.to_layer);
        let hi = via.from_layer.max(via.to_layer);
        for layer in lo..=hi {
            if layer_count == 0 || layer < layer_count {
                by_layer.entry(layer).or_default().push(Feature::via(via));
            }
        }
    }

    let mut out = Vec::new();
    for (layer, features) in by_layer {
        for i in 0..features.len() {
            for j in i + 1..features.len() {
                board.test_clearance_pair_exact(layer, &features[i], &features[j], &mut out);
            }
        }
    }
    in_report_order(out)
}

#[test]
fn spatial_index_matches_naive_all_pairs_reference() {
    let mut state = 0x7a5b_9d31_42c6_e817u64;
    let mut next = || {
        state = state.wrapping_mul(6364136223846793005).wrapping_add(1);
        ((state >> 32) as u32) as f64 / u32::MAX as f64
    };
    let coord = |v: f64| v * 30.0 - 15.0;
    let mut segments = Vec::new();
    let mut pads = Vec::new();
    let mut vias = Vec::new();
    for i in 0..48 {
        let net = format!("N{}", i % 7);
        let layer = (i % 3) as u32;
        let (x, y) = (coord(next()), coord(next()));
        match i % 3 {
            0 => segments.push(seg(
                &net,
                layer,
                (x, y),
                (x + coord(next()) * 0.35, y + coord(next()) * 0.35),
                0.05 + next() * 0.8,
            )),
            1 => pads.push(Pad {
                net: Some(net),
                layer,
                center: (x, y),
                width: 0.05 + next() * 1.5,
                height: 0.05 + next() * 1.5,
            }),
            _ => vias.push(Via {
                net,
                center: (x, y),
                pad_diameter: 0.4 + next() * 0.5,
                drill_diameter: 0.2,
                from_layer: layer,
                to_layer: layer,
                antipad_radius: None,
            }),
        }
    }
    let board = DrcBoard {
        layers: vec![LayerKind::Signal; 3],
        segments,
        pads,
        vias,
        rules: DrcRules {
            clearance: 0.3,
            plane_antipad: 0.1,
            min_annular_ring: 0.0,
        },
    };
    let indexed: Vec<_> = board
        .check()
        .into_iter()
        .filter(|v| v.class == ViolationClass::Clearance)
        .collect();
    assert_eq!(indexed, clearance_only_bruteforce(&board));
}

#[test]
fn every_copper_feature_pairing_is_checked() {
    let via = |net: &str| Via {
        net: net.into(),
        center: (0.0, 0.0),
        pad_diameter: 0.6,
        drill_diameter: 0.3,
        from_layer: 0,
        to_layer: 0,
        antipad_radius: None,
    };
    let segment = |net: &str| seg(net, 0, (-1.0, 0.0), (1.0, 0.0), 0.2);
    let pad = |net: &str| Pad {
        net: Some(net.into()),
        layer: 0,
        center: (0.0, 0.0),
        width: 0.5,
        height: 0.5,
    };
    let cases = [
        (vec![segment("A"), segment("B")], vec![], vec![]),
        (vec![segment("A")], vec![pad("B")], vec![]),
        (vec![segment("A")], vec![], vec![via("B")]),
        (vec![], vec![pad("A"), pad("B")], vec![]),
        (vec![], vec![pad("A")], vec![via("B")]),
        (vec![], vec![], vec![via("A"), via("B")]),
    ];
    for (segments, pads, vias) in cases {
        let board = DrcBoard {
            layers: vec![LayerKind::Signal],
            segments,
            pads,
            vias,
            rules: rules(),
        };
        assert_eq!(
            classes(&board.check(), ViolationClass::Clearance),
            1,
            "pairing should produce exactly one clearance violation: {board:?}"
        );
    }
}

#[test]
fn pad_pair_rules_do_not_raise_unrelated_copper_clearance() {
    let mut pair_rules = rules();
    pair_rules.clearance = 0.05;
    let board = DrcBoard {
        layers: vec![LayerKind::Signal],
        segments: vec![
            seg("A", 0, (-1.0, 0.0), (1.0, 0.0), 0.1),
            seg("B", 0, (-1.0, 0.16), (1.0, 0.16), 0.1),
        ],
        pads: vec![],
        vias: vec![],
        rules: pair_rules,
    };
    assert!(board
        .check_with_pad_clearances(0.07, 0.08, None, None)
        .is_empty());
}

#[test]
fn typed_trace_and_via_pad_rules_use_their_own_exact_boundaries() {
    let mut pair_rules = rules();
    pair_rules.clearance = 0.05;
    let pad = Pad {
        net: Some("pad".into()),
        layer: 0,
        center: (0.0, 0.0),
        width: 0.2,
        height: 0.2,
    };

    let trace_board = DrcBoard {
        layers: vec![LayerKind::Signal],
        segments: vec![seg("trace", 0, (0.21, -1.0), (0.21, 1.0), 0.1)],
        pads: vec![pad.clone()],
        vias: vec![],
        rules: pair_rules,
    };
    assert!(trace_board.check().is_empty());
    let trace_findings = trace_board.check_with_pad_clearances(0.07, 0.08, None, None);
    assert_eq!(trace_findings.len(), 1);
    assert_eq!(trace_findings[0].required, 0.07);

    let via_board = |x| DrcBoard {
        layers: vec![LayerKind::Signal],
        segments: vec![],
        pads: vec![pad.clone()],
        vias: vec![Via {
            net: "via".into(),
            center: (x, 0.0),
            pad_diameter: 0.4,
            drill_diameter: 0.2,
            from_layer: 0,
            to_layer: 0,
            antipad_radius: None,
        }],
        rules: pair_rules,
    };
    let just_inside =
        via_board(0.38 - 2.0 * EPS).check_with_pad_clearances(0.07, 0.08, None, None);
    assert_eq!(just_inside.len(), 1);
    assert_eq!(just_inside[0].required, 0.08);
    assert!(
        via_board(0.38)
            .check_with_pad_clearances(0.07, 0.08, None, None)
            .is_empty(),
        "an annulus exactly at the via→pad rule is legal"
    );

    let pad_board = DrcBoard {
        layers: vec![LayerKind::Signal],
        segments: vec![],
        pads: vec![
            pad,
            Pad {
                net: Some("other-pad".into()),
                layer: 0,
                center: (0.29, 0.0),
                width: 0.2,
                height: 0.2,
            },
        ],
        vias: vec![],
        rules: pair_rules,
    };
    assert!(pad_board.check().is_empty());
    let pad_findings = pad_board.check_with_pad_clearances(0.07, 0.08, Some(0.1), None);
    assert_eq!(pad_findings.len(), 1);
    assert_eq!(pad_findings[0].required, 0.1);
}

#[test]
fn typed_trace_rule_governs_via_to_trace_at_the_exact_boundary() {
    let mut pair_rules = rules();
    pair_rules.clearance = 0.04;
    pair_rules.min_annular_ring = 0.0;
    let board_at = |x| DrcBoard {
        layers: vec![LayerKind::Signal],
        segments: vec![seg("trace", 0, (x, -1.0), (x, 1.0), 0.1)],
        pads: vec![],
        vias: vec![Via {
            net: "via".into(),
            center: (0.0, 0.0),
            pad_diameter: 0.4,
            drill_diameter: 0.2,
            from_layer: 0,
            to_layer: 0,
            antipad_radius: None,
        }],
        rules: pair_rules,
    };
    assert!(board_at(0.32).check().is_empty());
    assert!(
        board_at(0.32)
            .check_with_pad_clearances(0.07, 0.09, None, None)
            .is_empty(),
        "a via annulus exactly at the SRJ trace rule is legal"
    );
    let findings = board_at(0.32 - 2.0 * EPS).check_with_pad_clearances(0.07, 0.09, None, None);
    assert_eq!(findings.len(), 1);
    assert_eq!(findings[0].required, 0.07);
}

#[test]
fn via_hole_clearance_can_dominate_annular_pad_clearance() {
    let mut pair_rules = rules();
    pair_rules.clearance = 0.02;
    pair_rules.min_annular_ring = 0.0;
    let board = DrcBoard {
        layers: vec![LayerKind::Signal],
        segments: vec![],
        pads: vec![],
        vias: vec![
            Via {
                net: "a".into(),
                center: (0.0, 0.0),
                pad_diameter: 0.2,
                drill_diameter: 0.18,
                from_layer: 0,
                to_layer: 0,
                antipad_radius: None,
            },
            Via {
                net: "b".into(),
                center: (0.25, 0.0),
                pad_diameter: 0.2,
                drill_diameter: 0.18,
                from_layer: 0,
                to_layer: 0,
                antipad_radius: None,
            },
        ],
        rules: pair_rules,
    };
    assert!(
        board.check().is_empty(),
        "0.05 annular edge gap satisfies generic 0.02"
    );
    let findings = board.check_with_pad_clearances(0.02, 0.02, None, Some(0.1));
    assert_eq!(findings.len(), 1);
    assert!((findings[0].measured - 0.07).abs() < 1e-12);
    assert!((findings[0].required - 0.1).abs() < 1e-12);

    let mut equal_rules = board.clone();
    equal_rules.vias[1].center.0 = 0.2;
    let equal_findings = equal_rules.check_with_pad_clearances(0.02, 0.02, None, Some(0.04));
    assert_eq!(
        equal_findings.len(),
        1,
        "the equal-strength rule has one owner"
    );
    assert!((equal_findings[0].measured - 0.02).abs() < 1e-12);
    assert!((equal_findings[0].required - 0.04).abs() < 1e-12);

    let mut same_net = board.clone();
    same_net.vias[1].net = "a".into();
    let same_net_findings = same_net.check_with_pad_clearances(0.02, 0.02, None, Some(0.1));
    assert_eq!(same_net_findings.len(), 1);
    assert_eq!(same_net_findings[0].nets, ("a".into(), "a".into()));
    assert!((same_net_findings[0].measured - 0.07).abs() < 1e-12);
    assert!((same_net_findings[0].required - 0.1).abs() < 1e-12);

    same_net.vias[1].center.0 = 0.28;
    assert!(
        same_net
            .check_with_pad_clearances(0.02, 0.02, None, Some(0.1))
            .is_empty(),
        "same-net holes exactly at the fabrication rule are legal"
    );

    let mut duplicate_representation = same_net.clone();
    duplicate_representation.vias[1] = duplicate_representation.vias[0].clone();
    duplicate_representation.layers = vec![LayerKind::Signal; 3];
    duplicate_representation.vias[1].to_layer = 2;
    duplicate_representation.vias[1].pad_diameter = 0.24;
    duplicate_representation.vias[1].drill_diameter = 0.19;
    assert!(
        duplicate_representation
            .check_with_pad_clearances(0.02, 0.02, None, Some(0.1))
            .is_empty(),
        "partial/full sibling records with different geometry are one physical hole"
    );

    duplicate_representation.vias[1].center.0 = SAME_VIA_LOCATION_EPS;
    assert!(
        duplicate_representation
            .check_with_pad_clearances(0.02, 0.02, None, Some(0.1))
            .is_empty(),
        "same-net records exactly 0.005 mm apart are one producer-defined site"
    );
    duplicate_representation.vias[1].center.0 = SAME_VIA_LOCATION_EPS + 2.0 * EPS;
    let outside_coincidence =
        duplicate_representation.check_with_pad_clearances(0.02, 0.02, None, Some(0.1));
    assert_eq!(outside_coincidence.len(), 1);
    assert_eq!(outside_coincidence[0].nets, ("a".into(), "a".into()));

    let mut interleaved = duplicate_representation.clone();
    interleaved.vias = vec![
        duplicate_representation.vias[0].clone(),
        Via {
            center: (0.002, 100.0),
            ..duplicate_representation.vias[0].clone()
        },
        Via {
            center: (0.004, 0.0),
            ..duplicate_representation.vias[1].clone()
        },
    ];
    assert!(
        interleaved
            .check_with_pad_clearances(0.02, 0.02, None, Some(0.1))
            .is_empty(),
        "a far-y via interleaved by x-sort cannot split one coincident site"
    );
}

#[test]
fn disjoint_foreign_via_spans_still_enforce_hole_spacing() {
    let mut pair_rules = rules();
    pair_rules.clearance = 0.2;
    pair_rules.min_annular_ring = 0.0;
    let board = DrcBoard {
        layers: vec![LayerKind::Signal; 4],
        segments: vec![],
        pads: vec![],
        vias: vec![
            Via {
                net: "a".into(),
                center: (0.0, 0.0),
                pad_diameter: 1.0,
                drill_diameter: 0.2,
                from_layer: 0,
                to_layer: 1,
                antipad_radius: None,
            },
            Via {
                net: "b".into(),
                center: (0.3, 0.0),
                pad_diameter: 1.0,
                drill_diameter: 0.2,
                from_layer: 2,
                to_layer: 3,
                antipad_radius: None,
            },
        ],
        rules: pair_rules,
    };
    assert!(board.check().is_empty(), "annular copper spans do not meet");
    let findings = board.check_with_pad_clearances(0.2, 0.2, None, Some(0.15));
    assert_eq!(findings.len(), 1);
    assert!((findings[0].measured - 0.1).abs() < 1e-12);
    assert!((findings[0].required - 0.15).abs() < 1e-12);
}

#[test]
fn merged_site_geometry_cannot_hide_a_hole_rule_from_actual_layer_copper() {
    let mut pair_rules = rules();
    pair_rules.clearance = 0.1;
    pair_rules.min_annular_ring = 0.0;
    let board = DrcBoard {
        layers: vec![LayerKind::Signal; 2],
        segments: vec![],
        pads: vec![],
        vias: vec![
            Via {
                net: "site".into(),
                center: (0.0, 0.0),
                pad_diameter: 2.0,
                drill_diameter: 0.2,
                from_layer: 0,
                to_layer: 0,
                antipad_radius: None,
            },
            Via {
                net: "site".into(),
                center: (0.0, 0.0),
                pad_diameter: 0.2,
                drill_diameter: 0.2,
                from_layer: 1,
                to_layer: 1,
                antipad_radius: None,
            },
            Via {
                net: "foreign".into(),
                center: (0.35, 0.0),
                pad_diameter: 0.2,
                drill_diameter: 0.2,
                from_layer: 1,
                to_layer: 1,
                antipad_radius: None,
            },
        ],
        rules: pair_rules,
    };
    assert!(
        board.check().is_empty(),
        "the only physically overlapping layer carries the small legal pads"
    );
    let findings = board.check_with_pad_clearances(0.1, 0.1, None, Some(0.2));
    assert_eq!(findings.len(), 1);
    assert_eq!(findings[0].nets, ("foreign".into(), "site".into()));
    assert!((findings[0].measured - 0.15).abs() < 1e-12);
    assert!((findings[0].required - 0.2).abs() < 1e-12);
}

#[test]
fn hole_site_reports_the_worst_original_coincident_representation_pair() {
    let mut pair_rules = rules();
    pair_rules.clearance = 0.0;
    pair_rules.min_annular_ring = 0.0;
    let via_at = |x| Via {
        net: "same".into(),
        center: (x, 0.0),
        pad_diameter: 0.2,
        drill_diameter: 0.2,
        from_layer: 0,
        to_layer: 0,
        antipad_radius: None,
    };
    let board = DrcBoard {
        layers: vec![LayerKind::Signal],
        segments: vec![],
        pads: vec![],
        vias: vec![via_at(0.0), via_at(0.005), via_at(0.301)],
        rules: pair_rules,
    };
    let findings = board.check_with_pad_clearances(0.0, 0.0, None, Some(0.1));
    assert_eq!(findings.len(), 1);
    assert!((findings[0].measured - 0.096).abs() < 1e-12);
    assert!((findings[0].location.0 - 0.153).abs() < 1e-12);
    assert_eq!(findings[0].required, 0.1);
    let mut reversed_shifted = board.clone();
    reversed_shifted.vias.reverse();
    assert_eq!(
        reversed_shifted.check_with_pad_clearances(0.0, 0.0, None, Some(0.1)),
        findings,
        "shifted same-site worst-gap selection is input-order independent"
    );

    let chain = DrcBoard {
        vias: vec![via_at(0.0), via_at(0.004), via_at(0.008)],
        ..board
    };
    let chain_findings = chain.check_with_pad_clearances(0.0, 0.0, None, Some(0.1));
    assert_eq!(chain_findings.len(), 1);
    assert!((chain_findings[0].measured + 0.192).abs() < 1e-12);
    assert!((chain_findings[0].location.0 - 0.004).abs() < 1e-12);
    assert_eq!(chain_findings[0].required, 0.1);
    assert_eq!(
        physical_via_sites(&vec![via_at(0.0); 64])[0].len(),
        1,
        "identical sibling soup records collapse before typed pair scanning"
    );
}

#[test]
fn via_pair_ownership_uses_the_strictest_violating_actual_rule() {
    let mut pair_rules = rules();
    pair_rules.clearance = 0.09;
    pair_rules.min_annular_ring = 0.0;
    let via = |net: &str, x: f64, pad: f64, drill: f64| Via {
        net: net.into(),
        center: (x, 0.0),
        pad_diameter: pad,
        drill_diameter: drill,
        from_layer: 0,
        to_layer: 0,
        antipad_radius: None,
    };
    let board = DrcBoard {
        layers: vec![LayerKind::Signal],
        segments: vec![],
        pads: vec![],
        vias: vec![
            via("site", 0.0, 0.21, 0.209),
            via("site", 0.005, 0.21, 0.2),
            via("foreign", 0.304, 0.214, 0.2),
        ],
        rules: pair_rules,
    };

    let findings = board.check_with_pad_clearances(0.09, 0.09, None, Some(0.1));
    assert_eq!(findings.len(), 1);
    assert!((findings[0].required - 0.1).abs() < 1e-12);
    assert!((findings[0].measured - 0.0995).abs() < 1e-12);
    assert!((findings[0].location.0 - 0.152).abs() < 1e-12);
    let original_vias = board.vias.clone();
    for order in [[0, 2, 1], [1, 0, 2], [1, 2, 0], [2, 0, 1], [2, 1, 0]] {
        let mut permuted = board.clone();
        permuted.vias = order
            .into_iter()
            .map(|index| original_vias[index].clone())
            .collect();
        assert_eq!(
            permuted.check_with_pad_clearances(0.09, 0.09, None, Some(0.1)),
            findings,
            "strictest-rule ownership is byte-identical under every input permutation"
        );
    }
}

#[test]
fn canonical_via_pair_arbitration_emits_one_strongest_physical_row() {
    let board_with = |vias: Vec<Via<f64>>, clearance: f64| {
        let mut pair_rules = rules();
        pair_rules.clearance = clearance;
        pair_rules.min_annular_ring = 0.0;
        DrcBoard {
            layers: vec![LayerKind::Signal; 2],
            segments: vec![],
            pads: vec![],
            vias,
            rules: pair_rules,
        }
    };
    let via = |net: &str, x: f64, pad: f64, drill: f64, from_layer: u32, to_layer: u32| Via {
        net: net.into(),
        center: (x, 0.0),
        pad_diameter: pad,
        drill_diameter: drill,
        from_layer,
        to_layer,
        antipad_radius: None,
    };

    let split_geometry = board_with(
        vec![
            via("site", 0.0, 1.0, 1.0, 0, 0),
            via("site", 0.0, 0.8, 0.2, 1, 1),
            via("foreign", 0.5, 0.2, 0.2, 1, 1),
        ],
        0.1,
    );
    let split = split_geometry.check_with_pad_clearances(0.1, 0.1, None, Some(0.2));
    assert_eq!(split.len(), 1);
    assert!((split[0].measured + 0.1).abs() < 1e-12);
    assert_eq!(split[0].required, 0.2);

    let duplicate = via("a", 0.0, 1.0, 0.2, 0, 0);
    let copper_board = board_with(
        vec![duplicate.clone(), duplicate, via("b", 0.25, 1.0, 0.2, 0, 0)],
        0.1,
    );
    assert_eq!(
        copper_board.check().len(),
        2,
        "without a declared hole rule, each via record counts"
    );
    let copper = copper_board.check_with_pad_clearances(0.1, 0.1, None, Some(0.1));
    assert_eq!(copper.len(), 1);
    assert!((copper[0].measured + 0.75).abs() < 1e-12);
    assert_eq!(copper[0].required, 0.1);

    let mut reversed = copper_board.clone();
    reversed.vias.reverse();
    assert_eq!(
        reversed.check_with_pad_clearances(0.1, 0.1, None, Some(0.1)),
        copper,
        "canonical arbitration is byte-identical under input permutation"
    );

    let hole_clean = board_with(
        vec![via("a", 0.0, 1.0, 0.2, 0, 0), via("b", 0.5, 1.0, 0.2, 0, 0)],
        0.1,
    )
    .check_with_pad_clearances(0.1, 0.1, None, Some(0.1));
    assert_eq!(hole_clean.len(), 1);
    assert!((hole_clean[0].measured + 0.5).abs() < 1e-12);

    let mut site_to_trace = board_with(
        vec![via("a", 0.0, 0.2, 0.1, 0, 0), via("a", 0.0, 0.2, 0.1, 0, 0)],
        0.1,
    );
    site_to_trace
        .segments
        .push(seg("b", 0, (0.15, -0.5), (0.15, 0.5), 0.1));
    let trace_rows = site_to_trace.check_with_pad_clearances(0.1, 0.1, None, Some(0.1));
    assert_eq!(trace_rows.len(), 1);
}

#[test]
fn aabb_rejection_matches_exact_for_all_shape_pairs_at_epsilon_boundary() {
    let make_segment = |net: &str, x: f64| Feature {
        net: Some(net.into()),
        shape: Shape::Segment {
            a: (x, -0.5),
            b: (x, 0.5),
        },
        inflate: 0.05,
    };
    let make_point = |net: &str, x: f64| Feature {
        net: Some(net.into()),
        shape: Shape::Point { c: (x, 0.0) },
        inflate: 0.05,
    };
    let make_rect = |net: &str, x: f64| Feature {
        net: Some(net.into()),
        shape: Shape::Rect {
            c: (x, 0.0),
            w: 0.1,
            h: 1.0,
        },
        inflate: 0.0,
    };
    let board = DrcBoard {
        layers: vec![LayerKind::Signal],
        segments: vec![],
        pads: vec![],
        vias: vec![],
        rules: rules(),
    };

    for delta in [-2.0 * EPS, -EPS, -0.5 * EPS, 0.0, EPS, 2.0 * EPS] {
        let x = 0.1 + board.rules.clearance + delta;
        let pairs = [
            (make_segment("A", 0.0), make_segment("B", x)),
            (make_segment("A", 0.0), make_point("B", x)),
            (make_point("A", 0.0), make_point("B", x)),
            (make_rect("A", 0.0), make_point("B", x)),
            (make_rect("A", 0.0), make_segment("B", x)),
            (make_rect("A", 0.0), make_rect("B", x)),
        ];
        for (a, b) in pairs {
            let mut filtered = Vec::new();
            board.test_clearance_pair(0, &a, &b, &mut filtered);
            let mut exact = Vec::new();
            board.test_clearance_pair_exact(0, &a, &b, &mut exact);
            assert_eq!(filtered, exact, "delta={delta}, a={a:?}, b={b:?}");
        }
    }
}

#[test]
fn aabb_rejection_preserves_negative_gap_when_clearance_is_off() {
    let board = DrcBoard {
        layers: vec![LayerKind::Signal],
        segments: vec![],
        pads: vec![],
        vias: vec![],
        rules: DrcRules {
            clearance: 0.0,
            ..rules()
        },
    };
    let a = Feature {
        net: Some("A".into()),
        shape: Shape::Point { c: (0.0, 0.0) },
        inflate: 0.5,
    };
    let b = Feature {
        net: Some("B".into()),
        shape: Shape::Point { c: (0.0, 0.0) },
        inflate: 0.5,
    };
    let mut filtered = Vec::new();
    board.test_clearance_pair(0, &a, &b, &mut filtered);
    let mut exact = Vec::new();
    board.test_clearance_pair_exact(0, &a, &b, &mut exact);
    assert_eq!(filtered, exact);
    assert_eq!(filtered.len(), 1);
    assert_eq!(filtered[0].measured, -1.0);
}

#[test]
fn geometry_distances_are_symmetric_under_reversal_and_translation() {
    let p = ((-2.0, 1.5), (4.0, -0.5));
    let q = ((-1.0, -3.0), (3.5, 2.0));
    let expected = seg_seg_dist(p.0, p.1, q.0, q.1);
    for (a0, a1) in [(p.0, p.1), (p.1, p.0)] {
        for (b0, b1) in [(q.0, q.1), (q.1, q.0)] {
            assert!((seg_seg_dist(a0, a1, b0, b1) - expected).abs() < 1e-12);
            assert!((seg_seg_dist(b0, b1, a0, a1) - expected).abs() < 1e-12);
        }
    }
    let shift = |v: (f64, f64)| (v.0 + 100.0, v.1 - 70.0);
    assert!(
        (seg_seg_dist(shift(p.0), shift(p.1), shift(q.0), shift(q.1)) - expected).abs() < 1e-12
    );
    assert_eq!(point_seg_dist(p.0, q.0, q.0), dist(p.0, q.0));
}

#[test]
fn drc_summary_tallies_all_classes() {
    let violations = vec![
        Violation {
            class: ViolationClass::Clearance,
            layer: 0,
            location: (0.0, 0.0),
            nets: ("a".into(), "b".into()),
            measured: 0.0,
            required: 1.0,
        },
        Violation {
            class: ViolationClass::ViaThroughPlane,
            layer: 1,
            location: (0.0, 0.0),
            nets: ("a".into(), "gnd".into()),
            measured: 0.0,
            required: 1.0,
        },
        Violation {
            class: ViolationClass::AnnularRing,
            layer: 0,
            location: (0.0, 0.0),
            nets: ("a".into(), String::new()),
            measured: 0.0,
            required: 1.0,
        },
    ];
    let summary = DrcSummary::of(&violations);
    assert_eq!(summary.total, 3);
    assert_eq!(summary.clearance, 1);
    assert_eq!(summary.via_through_plane, 1);
    assert_eq!(summary.annular_ring, 1);
    assert!(!summary.is_clean());
    assert!(DrcSummary::of::<f64>(&[]).is_clean());
}

#[test]
fn each_kind_of_row_is_reported_on_its_own() {
    let at = place((1.0, 2.0));
    let via = |net: &str, from_layer: u32, to_layer: u32| Via {
        net: net.to_string(),
        center: (1.0, 2.0),
        pad_diameter: 0.6,
        drill_diameter: 0.3,
        from_layer,
        to_layer,
        antipad_radius: None,
    };
    let board = DrcBoard {
        layers: vec![
            LayerKind::Signal,
            LayerKind::Plane { net: "gnd".to_string() },
            LayerKind::Plane { net: "b".to_string() },
            LayerKind::Signal,
        ],
        segments: vec![],
        pads: vec![],
        vias: vec![via("b", 3, 0), via("a", 0, 1)],
        rules: DrcRules {
            clearance: 0.2,
            plane_antipad: 0.2,
            min_annular_ring: 0.1,
        },
    };
    let short = as_shortfall(0.1, 0.2);
    let check = |plane: bool, ring: bool| ViaCheck {
        place: at,
        plane: plane.then_some(short),
        ring: ring.then_some(short),
    };
    let checks = vec![check(true, true), check(true, false)];
    let planes: Vec<(u32, (String, String))> = plane_rows(&board, &checks)
        .into_iter()
        .map(|r| (r.violation.layer, r.violation.nets))
        .collect();
    assert_eq!(
        planes,
        vec![
            (1, ("b".to_string(), "gnd".to_string())),
            (1, ("a".to_string(), "gnd".to_string())),
        ]
    );
    let rings = ring_rows(&board, &checks);
    assert_eq!(rings.len(), 1);
    assert_eq!(rings[0].violation.class, ViolationClass::AnnularRing);
    assert_eq!(rings[0].violation.layer, 0);
    assert_eq!(rings[0].violation.nets, ("b".to_string(), String::new()));
    assert_eq!(rings[0].violation.location, (1.0, 2.0));

    let stamps = stamp_board(&board, &None);
    let close = vec![
        CloseCall { i: 0, j: 4, place: at, short },
        CloseCall { i: 1, j: 5, place: at, short: as_shortfall(0.05, 0.2) },
    ];
    let rows = clearance_rows(&board, &stamps, &close);
    assert_eq!(rows.len(), 2);
    assert_eq!(rows[0].violation.nets, ("a".to_string(), "b".to_string()));
    assert_eq!(rows[1].violation.layer, 1);
    assert_eq!(rows[1].violation.measured, 0.05);

    let records = vec![Record { site: 0, via: 0 }, Record { site: 1, via: 1 }];
    let call = |hole: bool, copper_centre: i64| ViaCall {
        i: 0,
        j: 1,
        same_place: false,
        place: at,
        hole: hole.then_some(short),
        hole_centre: 5,
        hole_slack: 6,
        copper: Some(as_shortfall(0.15, 0.2)),
        copper_centre,
        copper_slack: copper_centre + 1,
    };
    assert_eq!(via_rows(&board, &records, &vec![call(true, 5)])[0].violation.measured, 0.1);
    assert_eq!(via_rows(&board, &records, &vec![call(true, 9)])[0].violation.measured, 0.15);
    assert_eq!(via_rows(&board, &records, &vec![call(false, 1)])[0].violation.measured, 0.15);
    let mut same = call(true, 5);
    same.same_place = true;
    assert!(via_rows(&board, &records, &vec![same]).is_empty());

    let found = Findings { close, records, vias: vec![call(true, 5)], checks };
    let classes: Vec<ViolationClass> = report(&board, &stamps, &found)
        .into_iter()
        .map(|v| v.class)
        .collect();
    assert_eq!(
        classes,
        vec![
            ViolationClass::Clearance,
            ViolationClass::Clearance,
            ViolationClass::Clearance,
            ViolationClass::ViaThroughPlane,
            ViolationClass::ViaThroughPlane,
            ViolationClass::AnnularRing,
        ]
    );
}

#[test]
fn nets_conflict_unless_they_are_known_to_be_the_same() {
    let net = |s: &str| Some(s.to_string());
    assert!(!nets_conflict(&net("a"), &net("a")));
    assert!(nets_conflict(&net("a"), &net("b")));
    assert!(nets_conflict(&None, &net("b")));
    assert!(nets_conflict(&None, &None));
    assert_eq!(
        ordered_nets(&net("b"), &net("a")),
        ("a".to_string(), "b".to_string())
    );
    assert_eq!(ordered_nets(&net("b"), &None), (String::new(), "b".to_string()));
}

#[test]
fn squares_that_touch_make_pairs_once() {
    let at = |layer: u32, x: i64, y: i64| Bin { layer, x, y };
    let bins = vec![
        at(0, 0, 0),
        at(0, 1, -1),
        at(0, 2, 0),
        at(1, 0, 0),
        at(0, 0, 0),
        at(0, i64::MAX, i64::MIN),
        at(0, i64::MAX, i64::MIN + 1),
    ];
    let mut pairs = near_pairs(&bins);
    pairs.sort_unstable();
    assert_eq!(pairs, vec![(0, 1), (0, 4), (1, 2), (1, 4), (5, 6)]);
}

#[test]
fn keys_sort_like_words_and_keep_their_order() {
    let keys = vec![vec![2], vec![1, 5], vec![1], vec![2], vec![1, -1]];
    assert_eq!(sorted_order(&keys), vec![2, 4, 1, 0, 3]);
    assert_eq!(group_leaders(&keys, 1), vec![2, 0]);
}

#[test]
fn the_worst_pair_of_pieces_stands_for_two_things() {
    let row = |a: usize, b: usize, deficit: i64| PairRow {
        layer: 0,
        a,
        b,
        deficit,
        row: vec![0],
    };
    let pairs = vec![row(1, 2, -3), row(2, 1, -7), row(0, 2, -1)];
    assert_eq!(worst_pairs(&pairs), vec![2, 1]);
}

#[test]
fn holes_are_reported_unless_copper_asks_for_more() {
    let row = |hole: bool, centre: i64| ViaRow {
        low: 0,
        high: 1,
        hole,
        centre,
        slack: centre + 1,
        deficit: -1,
        row: vec![0],
    };
    assert_eq!(arbitrate(&vec![row(true, 5), row(false, 6)]), vec![0]);
    assert_eq!(arbitrate(&vec![row(true, 5), row(false, 7)]), vec![1]);
    assert_eq!(arbitrate(&vec![row(true, 5), row(true, 6)]), vec![1]);
    assert_eq!(arbitrate(&vec![row(false, 5)]), vec![0]);
}

#[test]
fn vias_join_the_first_site_whose_anchor_is_close() {
    let near = |list: &[(usize, bool)]| {
        list.iter()
            .map(|&(at, same)| Neighbour { at, same })
            .collect::<Vec<_>>()
    };
    let sites = merge_sites(&vec![
        near(&[]),
        near(&[(0, false)]),
        near(&[(1, false)]),
        near(&[(2, false), (0, false)]),
        near(&[(0, true), (3, true)]),
    ]);
    assert_eq!(sites, vec![vec![0, 1, 3], vec![2]]);
    let records: Vec<(usize, usize)> =
        via_records(&sites).iter().map(|r| (r.site, r.via)).collect();
    assert_eq!(records, vec![(0, 0), (0, 1), (0, 3), (1, 2)]);
    assert_eq!(via_records(&Vec::new()), Vec::new());
}

#[test]
fn a_copy_of_a_board_holds_the_same() {
    let board = DrcBoard {
        layers: vec![LayerKind::Signal, LayerKind::Plane { net: "g".to_string() }],
        segments: vec![
            Segment { net: "a".to_string(), layer: 0, a: (0.0, 0.0), b: (1.0, 0.0), width: 0.1 },
            Segment { net: "b".to_string(), layer: 1, a: (0.0, 2.0), b: (1.0, 2.0), width: 0.2 },
        ],
        pads: vec![Pad { net: None, layer: 0, center: (3.0, 3.0), width: 1.0, height: 2.0 }],
        vias: vec![],
        rules: DrcRules { clearance: 0.2, plane_antipad: 0.2, min_annular_ring: 0.1 },
    };
    assert_eq!(board.clone(), board);
}

#[test]
fn reports_ignore_the_order_of_copper_and_of_via_ends() {
    let trace = |net: &str, y: f64| Segment {
        net: net.to_string(),
        layer: 0,
        a: (0.0, y),
        b: (4.0, y),
        width: 0.2,
    };
    let via = |net: &str, x: f64, from_layer: u32, to_layer: u32| Via {
        net: net.to_string(),
        center: (x, 0.05),
        pad_diameter: 0.4,
        drill_diameter: 0.35,
        from_layer,
        to_layer,
        antipad_radius: None,
    };
    let board = DrcBoard {
        layers: vec![
            LayerKind::Signal,
            LayerKind::Plane { net: "gnd".to_string() },
            LayerKind::Signal,
        ],
        segments: vec![trace("a", 0.0), trace("b", 0.25), trace("c", 0.5)],
        pads: vec![],
        vias: vec![via("d", 1.0, 0, 2), via("e", 1.3, 0, 1)],
        rules: DrcRules { clearance: 0.2, plane_antipad: 0.2, min_annular_ring: 0.1 },
    };
    let mut other = board.clone();
    other.segments.reverse();
    other.vias = vec![via("e", 1.3, 1, 0), via("d", 1.0, 2, 0)];
    let report = board.check();
    assert!(report.len() > 6);
    assert_eq!(report, other.check());
}
