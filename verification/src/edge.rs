//! Weighted, named edges, and the lines of text that write them.

use crate::text::{chars_of, parse_u8, parsed_u8, split, split_ranges};
use crate::vertex::Vertex;
use std::str::FromStr;
use vstd::prelude::*;

verus! {

/// A task: a named edge from `start` to `end` that takes `dist` units of time.
#[derive(Debug)]
pub struct Edge {
    pub name: String,
    pub start: Vertex,
    pub end: Vertex,
    pub dist: u8,
}

impl Clone for Edge {
    fn clone(&self) -> (copy: Self)
        ensures
            copy == *self,
    {
        Edge { name: self.name.clone(), start: self.start, end: self.end, dist: self.dist }
    }
}

/// What an edge holds, the name taken as its characters.
pub struct Record {
    pub name: Seq<char>,
    pub start: Vertex,
    pub end: Vertex,
    pub dist: u8,
}

impl View for Edge {
    type V = Record;

    open spec fn view(&self) -> Record {
        Record { name: self.name@, start: self.start, end: self.end, dist: self.dist }
    }
}

/// What the edges hold.
pub open spec fn records(edges: Seq<Edge>) -> Seq<Record> {
    Seq::new(edges.len(), |i: int| edges[i]@)
}

/// The edge that a line writes: four fields with a tab between each two of
/// them, which are the name, the index of the start, the index of the end and
/// the weight, the three numbers from 0 to 255 in decimal digits. `None`
/// where the line is not of that form.
pub open spec fn parsed_record(line: Seq<char>) -> Option<Record> {
    let fields = split(line, '\t');
    if fields.len() == 4 && parsed_u8(fields[1]) is Some && parsed_u8(fields[2]) is Some
        && parsed_u8(fields[3]) is Some {
        Some(
            Record {
                name: fields[0],
                start: Vertex { idx: parsed_u8(fields[1]).unwrap() },
                end: Vertex { idx: parsed_u8(fields[2]).unwrap() },
                dist: parsed_u8(fields[3]).unwrap(),
            },
        )
    } else {
        None
    }
}

/// `s` without the carriage return that may stand at its end.
pub open spec fn without_return(s: Seq<char>) -> Seq<char> {
    if s.len() > 0 && s.last() == '\r' {
        s.drop_last()
    } else {
        s
    }
}

/// The lines of a text. A line ends with a line feed, or with a carriage
/// return and a line feed, neither of which belongs to the line; what
/// follows the last line feed is a line too.
pub open spec fn lines(text: Seq<char>) -> Seq<Seq<char>> {
    let pieces = split(text, '\n');
    Seq::new(
        pieces.len(),
        |i: int|
            if i + 1 < pieces.len() {
                without_return(pieces[i])
            } else {
                pieces[i]
            },
    )
}

/// The edges that the lines write, in their order; a line that writes no
/// edge is passed over.
pub open spec fn kept(lines: Seq<Seq<char>>) -> Seq<Record>
    decreases lines.len(),
{
    if lines.len() == 0 {
        Seq::empty()
    } else {
        let rest = kept(lines.drop_last());
        match parsed_record(lines.last()) {
            Some(r) => rest.push(r),
            None => rest,
        }
    }
}

/// Reads the characters from `from` up to `to`, which are characters of
/// `text`, as the line of an edge.
fn parse_line(text: &str, chars: &Vec<char>, from: usize, to: usize) -> (r: Option<Edge>)
    requires
        chars@ == text@,
        from <= to <= chars@.len(),
    ensures
        match r {
            Some(edge) => parsed_record(chars@.subrange(from as int, to as int)) == Some(edge@),
            None => parsed_record(chars@.subrange(from as int, to as int)) is None,
        },
{
    let fields = split_ranges(chars, from, to, '\t');
    if fields.len() != 4 {
        return None;
    }
    let start = match parse_u8(chars, fields[1].0, fields[1].1) {
        Some(idx) => Vertex::new(idx),
        None => {
            return None;
        },
    };
    let end = match parse_u8(chars, fields[2].0, fields[2].1) {
        Some(idx) => Vertex::new(idx),
        None => {
            return None;
        },
    };
    let dist = match parse_u8(chars, fields[3].0, fields[3].1) {
        Some(dist) => dist,
        None => {
            return None;
        },
    };
    let name = text.substring_char(fields[0].0, fields[0].1).to_owned();
    Some(Edge { name, start, end, dist })
}

impl Edge {
    /// Reads an edge from the line that writes it.
    pub fn parse(line: &str) -> (r: Option<Edge>)
        ensures
            match r {
                Some(edge) => parsed_record(line@) == Some(edge@),
                None => parsed_record(line@) is None,
            },
    {
        let chars = chars_of(line);
        assert(chars@.subrange(0, chars@.len() as int) =~= line@);
        parse_line(line, &chars, 0, chars.len())
    }
}

impl FromStr for Edge {
    type Err = ();

    /// Reads an edge from the line that writes it.
    fn from_str(s: &str) -> (r: Result<Self, ()>)
        ensures
            match r {
                Ok(edge) => parsed_record(s@) == Some(edge@),
                Err(_) => parsed_record(s@) is None,
            },
    {
        match Edge::parse(s) {
            Some(edge) => Ok(edge),
            None => Err(()),
        }
    }
}

/// Reads the edges that the lines of a text write. Lines that write no
/// edge, empty ones among them, are passed over.
pub fn parse_edges(text: &str) -> (edges: Vec<Edge>)
    ensures
        records(edges@) == kept(lines(text@)),
{
    let chars = chars_of(text);
    let pieces = split_ranges(&chars, 0, chars.len(), '\n');
    let ghost all = lines(text@);
    let mut edges: Vec<Edge> = Vec::new();
    let mut m: usize = 0;
    proof {
        assert(chars@.subrange(0, chars@.len() as int) =~= text@);
        assert(all.take(0) =~= Seq::empty());
        assert(records(edges@) =~= Seq::empty());
    }
    while m < pieces.len()
        invariant
            m <= pieces@.len(),
            chars@ == text@,
            all == lines(text@),
            pieces@.len() == split(text@, '\n').len(),
            forall|k: int|
                0 <= k < pieces@.len() ==> {
                    &&& 0 <= (#[trigger] pieces@[k]).0 <= pieces@[k].1 <= chars@.len()
                    &&& split(text@, '\n')[k] == chars@.subrange(
                        pieces@[k].0 as int,
                        pieces@[k].1 as int,
                    )
                },
            records(edges@) == kept(all.take(m as int)),
        decreases pieces@.len() - m,
    {
        let from = pieces[m].0;
        let mut to = pieces[m].1;
        if m + 1 < pieces.len() && from < to && chars[to - 1] == '\r' {
            to = to - 1;
        }
        proof {
            let piece = chars@.subrange(from as int, pieces@[m as int].1 as int);
            assert(split(text@, '\n')[m as int] == piece);
            if m + 1 < pieces@.len() && from < pieces@[m as int].1 && piece.last() == '\r' {
                assert(piece.drop_last() =~= chars@.subrange(from as int, to as int));
            }
            assert(all[m as int] == chars@.subrange(from as int, to as int));
            assert(all.take(m + 1).drop_last() =~= all.take(m as int));
            assert(all.take(m + 1).last() == all[m as int]);
        }
        let ghost before = edges@;
        match parse_line(text, &chars, from, to) {
            Some(edge) => {
                edges.push(edge);
                proof {
                    assert(records(edges@) =~= records(before).push(edge@));
                }
            },
            None => {},
        }
        m += 1;
    }
    proof {
        assert(all.take(m as int) =~= all);
    }
    edges
}

} // verus!
