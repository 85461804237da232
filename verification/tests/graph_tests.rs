use csv2svg::graph::Graph;
use csv2svg::series::Series;
use csv2svg::tbl::Tbl;
use csv2svg::visibility::Visibility;

fn tbl(x: Vec<Option<i64>>, y: Vec<Option<i64>>) -> Tbl {
    let xs = Series::from_integers("x".to_string(), x).unwrap();
    let ys = Series::from_integers("y".to_string(), y).unwrap();
    Tbl::from_seqs(vec![xs, ys]).unwrap()
}

#[test]
fn graph_layout() {
    let g = Graph::new(tbl(
        vec![Some(0), Some(1), Some(2)],
        vec![Some(0), Some(25), Some(15)],
    ));
    assert_eq!(g.width, 800);
    assert_eq!(g.height, 500);
    // the frame: margins 70/26 with 680 x 389 of drawing space
    assert_eq!((g.gr.left, g.gr.top, g.gr.width, g.gr.height), (70, 26, 680, 389));
    // the scale covers the y range 0..=25 with ticks every ten
    assert_eq!(g.scale.ticks, vec![0, 10, 20, 30]);
    // x spans the frame
    assert_eq!(g.projector.project_x(0), 70);
    assert_eq!(g.projector.project_x(2), 750);
    // larger y values land higher (smaller pixel y)
    assert!(g.projector.project_y(25) < g.projector.project_y(0));
    assert_eq!(g.projector.project_y(g.scale.max), g.gr.top);
}

#[test]
fn graph_x_ticks_spread_apart() {
    let g = Graph::new(tbl(
        vec![Some(0), Some(1), Some(2)],
        vec![Some(0), Some(25), Some(15)],
    ));
    let ticks = g.x_tick_positions();
    assert_eq!(ticks.len(), 3);
    assert_eq!(ticks[0].x, 70);
    assert_eq!(ticks[1].x, 410);
    assert_eq!(ticks[2].x, 750);
    // already far enough apart: the labels stay put, the inner one fades
    assert_eq!(ticks[0].tx, 70);
    assert_eq!(ticks[1].tx, 410);
    assert_eq!(ticks[2].tx, 750);
    assert!(matches!(ticks[0].vis, Visibility::Visible));
    assert!(matches!(ticks[1].vis, Visibility::Faded));
    assert!(matches!(ticks[2].vis, Visibility::Visible));
    for w in ticks.windows(2) {
        assert!(w[1].tx - w[0].tx >= 10);
    }
}

#[test]
fn graph_x_ticks_hidden_when_collapsed() {
    // two thousand rows cannot keep ten pixels apart in a 680 pixel frame:
    // many rows project onto the same pixel, so there is nothing to spread
    // and the inner labels go hover-only
    let n: i64 = 2000;
    let x: Vec<Option<i64>> = (0..n).map(Some).collect();
    let y: Vec<Option<i64>> = (0..n).map(|v| Some(v % 7)).collect();
    let g = Graph::new(tbl(x, y));
    let ticks = g.x_tick_positions();
    assert_eq!(ticks.len(), n as usize);
    assert!(matches!(ticks[0].vis, Visibility::Visible));
    assert!(matches!(ticks[1].vis, Visibility::Invisible));
    assert!(matches!(ticks[n as usize - 1].vis, Visibility::Visible));
    // the fallback leaves every label at its projected position
    assert!(ticks.iter().all(|t| t.tx == t.x));
}

#[test]
fn graph_curve_points() {
    let g = Graph::new(tbl(
        vec![Some(0), Some(1), Some(2)],
        vec![Some(0), None, Some(30)],
    ));
    let pts = g.curve_points(1);
    // only the rows where the y series has a value
    assert_eq!(pts.len(), 2);
    assert_eq!(pts[0].0, 0);
    assert_eq!(pts[1].0, 2);
    assert_eq!(pts[0].1, 70);
    assert_eq!(pts[1].1, 750);
    // the scale for 0..=30 runs up to 40; y values project inside the frame
    assert_eq!(g.scale.max, 40);
    assert_eq!(pts[0].2, 415); // y = 0, the frame bottom
    assert_eq!(pts[1].2, 123); // y = 30

}
