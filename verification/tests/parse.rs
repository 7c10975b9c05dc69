use cpm::edge::{parse_edges, Edge};
use cpm::text::{chars_of, parse_u8, split_ranges};
use cpm::vertex::Vertex;

#[test]
fn vertex_from_digits() {
    assert_eq!("7".parse::<Vertex>(), Ok(Vertex::new(7)));
    assert_eq!("0".parse::<Vertex>(), Ok(Vertex::new(0)));
    assert_eq!("255".parse::<Vertex>(), Ok(Vertex::new(255)));
    assert_eq!("007".parse::<Vertex>(), Ok(Vertex::new(7)));
    assert_eq!("+12".parse::<Vertex>(), Ok(Vertex::new(12)));
    assert_eq!("0000000000000000000000000255".parse::<Vertex>(), Ok(Vertex::new(255)));
}

#[test]
fn vertex_from_other_text_fails() {
    for text in ["", "+", "256", "1000", "99999999999999999999999", "-1", "-0", "1a", "a1", " 1", "1 ", "1.0", "++1", "1+", "٣"] {
        assert_eq!(text.parse::<Vertex>(), Err(()), "{text:?}");
    }
}

#[test]
fn vertex_agrees_with_u8() {
    for text in ["0", "9", "10", "099", "199", "249", "250", "255", "256", "260", "300", "+0", "+255", "+256", "2555"] {
        assert_eq!(text.parse::<Vertex>().ok().map(|v| v.idx), text.parse::<u8>().ok(), "{text:?}");
    }
}

#[test]
fn number_within_a_text() {
    let chars = chars_of("ab123cd");
    assert_eq!(parse_u8(&chars, 2, 5), Some(123));
    assert_eq!(parse_u8(&chars, 2, 4), Some(12));
    assert_eq!(parse_u8(&chars, 1, 5), None);
    assert_eq!(parse_u8(&chars, 3, 3), None);
}

#[test]
fn pieces_of_a_text() {
    let chars = chars_of("a,bc,,d");
    assert_eq!(split_ranges(&chars, 0, 7, ','), vec![(0, 1), (2, 4), (5, 5), (6, 7)]);
    assert_eq!(split_ranges(&chars, 2, 4, ','), vec![(2, 4)]);
    assert_eq!(split_ranges(&chars, 1, 2, ','), vec![(1, 1), (2, 2)]);
    assert_eq!(split_ranges(&chars, 3, 3, ','), vec![(3, 3)]);
}

#[test]
fn edge_from_its_line() {
    let edge = Edge::parse("A\t1\t2\t3").unwrap();
    assert_eq!(edge.name, "A");
    assert_eq!(edge.start, Vertex::new(1));
    assert_eq!(edge.end, Vertex::new(2));
    assert_eq!(edge.dist, 3);
    let edge: Edge = "lay bricks\t10\t200\t255".parse().unwrap();
    assert_eq!(edge.name, "lay bricks");
    assert_eq!(edge.start, Vertex::new(10));
    assert_eq!(edge.end, Vertex::new(200));
    assert_eq!(edge.dist, 255);
}

#[test]
fn edge_with_any_name() {
    let edge = Edge::parse("\t1\t2\t3").unwrap();
    assert_eq!(edge.name, "");
    let edge = Edge::parse("Grundstück räumen – 1\t1\t2\t3").unwrap();
    assert_eq!(edge.name, "Grundstück räumen – 1");
    assert_eq!(edge.dist, 3);
}

#[test]
fn line_of_another_form_is_no_edge() {
    for line in [
        "",
        "A",
        "A\t1\t2",
        "A\t1\t2\t3\t4",
        "A\t1\t2\t3\t",
        "A\t1\t2\t",
        "A\t\t2\t3",
        "A\t1\t2\t256",
        "A\t256\t2\t3",
        "A\t1\t-2\t3",
        "A\t1\t2\tx",
        "A 1 2 3",
        "A\t1\t2\t3 ",
        "A\t1\t2\t3\r",
        "   ",
    ] {
        assert!(Edge::parse(line).is_none(), "{line:?}");
        assert!(line.parse::<Edge>().is_err(), "{line:?}");
    }
}

fn summary(edges: &[Edge]) -> Vec<(String, u8, u8, u8)> {
    edges.iter().map(|e| (e.name.clone(), e.start.idx, e.end.idx, e.dist)).collect()
}

fn row(name: &str, start: u8, end: u8, dist: u8) -> (String, u8, u8, u8) {
    (name.to_string(), start, end, dist)
}

#[test]
fn edges_of_a_text() {
    let edges = parse_edges("A\t1\t2\t3\nB\t2\t3\t4\n");
    assert_eq!(summary(&edges), vec![row("A", 1, 2, 3), row("B", 2, 3, 4)]);
    let edges = parse_edges("A\t1\t2\t3\nB\t2\t3\t4");
    assert_eq!(summary(&edges), vec![row("A", 1, 2, 3), row("B", 2, 3, 4)]);
    assert!(parse_edges("").is_empty());
    assert!(parse_edges("\n\n\n").is_empty());
}

#[test]
fn lines_that_write_no_edge_are_dropped() {
    let text = "\nA\t1\t2\t3\n\nnot an edge\nB\t2\t3\nC\t3\t4\t5\n\n";
    assert_eq!(summary(&parse_edges(text)), vec![row("A", 1, 2, 3), row("C", 3, 4, 5)]);
}

#[test]
fn carriage_return_before_line_feed_ends_the_line() {
    let text = "A\t1\t2\t3\r\nB\t2\t3\t4\r\n\r\nC\t3\t4\t5";
    assert_eq!(
        summary(&parse_edges(text)),
        vec![row("A", 1, 2, 3), row("B", 2, 3, 4), row("C", 3, 4, 5)]
    );
    // without a line feed behind it the carriage return belongs to the line
    let text = "A\t1\t2\t3\r\nB\t2\t3\t4\r";
    assert_eq!(summary(&parse_edges(text)), vec![row("A", 1, 2, 3)]);
    // only one carriage return is taken off
    let text = "A\t1\t2\t3\r\r\nB\t2\t3\t4\n";
    assert_eq!(summary(&parse_edges(text)), vec![row("B", 2, 3, 4)]);
}

#[test]
fn lines_are_those_of_std() {
    let a = "A\t1\t2\t3";
    let b = "B\t2\t3\t4";
    for shape in [
        "", "a", "a\n", "a\nb", "a\nb\n", "a\r\nb\r\n", "\r\n", "a\rb\n", "a\n\nb", "\n", "a\r",
        "a\r\n\r", "a\r\r\nb", "\na", "\r\na\r\n", "a\n\rb", "ab", "a\tb",
    ] {
        let text = shape.replace('a', a).replace('b', b);
        let ours = summary(&parse_edges(&text));
        let theirs: Vec<Edge> = text.lines().filter_map(Edge::parse).collect();
        assert_eq!(ours, summary(&theirs), "{text:?}");
    }
}
