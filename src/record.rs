use vstd::prelude::*;

use crate::attributes::{attribute_pairs, lookup, Attributes};
use crate::interval::Interval;
use crate::text::{
    chars_of, is_unsigned, parse_u64, unsigned_value, split_fields, split_on, string_of,
};

verus! {

/// The columns of one annotation line that the library reads.
pub struct GffLine {
    pub contig: String,
    pub interval: Interval,
    pub feature_type: String,
    pub annotation: String,
}

/// A line holds the columns that the library reads: at least nine
/// tab-separated fields, a 1-based start and an end that are unsigned
/// numbers within `u64`, and a start no later than one past the end.
pub open spec fn gff_fields_ok(f: Seq<Seq<char>>) -> bool {
    f.len() >= 9 && is_unsigned(f[3]) && is_unsigned(f[4]) && 1 <= unsigned_value(f[3])
        <= u64::MAX && unsigned_value(f[4]) <= u64::MAX && unsigned_value(f[3]) - 1
        <= unsigned_value(f[4])
}

impl GffLine {
    /// Reads the contig, feature type, coordinates and attribute column of an
    /// annotation line. The raw 1-based inclusive start becomes the 0-based
    /// half-open start by subtracting one.
    pub fn from_line(line: &str) -> (r: Option<GffLine>)
        ensures
            r is Some <==> gff_fields_ok(split_fields(line@, '\t')),
            r matches Some(g) ==> {
                let f = split_fields(line@, '\t');
                &&& g.contig@ == f[0]
                &&& g.feature_type@ == f[2]
                &&& g.annotation@ == f[8]
                &&& g.interval.start == unsigned_value(f[3]) - 1
                &&& g.interval.end == unsigned_value(f[4])
                &&& g.interval.wf()
            },
    {
        let chars = chars_of(line);
        let tokens = split_on(&chars, '\t');
        if tokens.len() < 9 {
            return None;
        }
        let start = match parse_u64(tokens[3].as_slice()) {
            Some(n) => n,
            None => return None,
        };
        let end = match parse_u64(tokens[4].as_slice()) {
            Some(n) => n,
            None => return None,
        };
        if start == 0 || start - 1 > end {
            return None;
        }
        Some(
            GffLine {
                contig: string_of(tokens[0].as_slice()),
                interval: Interval::new(start - 1, end),
                feature_type: string_of(tokens[2].as_slice()),
                annotation: string_of(tokens[8].as_slice()),
            },
        )
    }
}

/// The view of an optional string.
pub open spec fn opt_view(o: Option<String>) -> Option<Seq<char>> {
    match o {
        Some(s) => Some(s@),
        None => None,
    }
}

/// The `level` attribute as a byte; 255 where it is absent or not an
/// unsigned number in `0..=255`.
pub open spec fn level_of(v: Option<Seq<char>>) -> u8 {
    match v {
        Some(s) => if is_unsigned(s) && unsigned_value(s) <= 255 {
            unsigned_value(s) as u8
        } else {
            255
        },
        None => 255,
    }
}

/// What the ranking reads of one annotation feature.
pub struct Annotation {
    pub interval: Interval,
    pub gene_name: Option<String>,
    pub feature_type: String,
    pub mane: bool,
    pub tsl: Option<String>,
    pub level: u8,
    pub transcript_type: Option<String>,
}

/// `a` holds coordinates `iv`, feature type `ft` and what an attribute
/// column that parsed to `pairs` says.
pub open spec fn annotation_fields(
    a: Annotation,
    iv: Interval,
    ft: Seq<char>,
    pairs: Seq<(Seq<char>, Seq<char>)>,
) -> bool {
    &&& a.interval == iv
    &&& a.feature_type@ == ft
    &&& opt_view(a.gene_name) == lookup(pairs, "gene_name"@)
    &&& a.mane == (lookup(pairs, "tag"@) == Some("MANE_Select"@))
    &&& opt_view(a.tsl) == lookup(pairs, "transcript_support_level"@)
    &&& a.level == level_of(lookup(pairs, "level"@))
    &&& opt_view(a.transcript_type) == lookup(pairs, "transcript_type"@)
}

/// The annotation fields of a line whose attribute column parsed to `pairs`.
pub open spec fn annotation_matches(a: Annotation, g: GffLine, pairs: Seq<(Seq<char>, Seq<char>)>) -> bool {
    annotation_fields(a, g.interval, g.feature_type@, pairs)
}

/// `a` is the annotation of a line whose tab-separated fields are `f`.
pub open spec fn decoded_annotation(a: Annotation, f: Seq<Seq<char>>) -> bool {
    annotation_fields(
        a,
        Interval { start: (unsigned_value(f[3]) - 1) as u64, end: unsigned_value(f[4]) as u64 },
        f[2],
        attribute_pairs(f[8])->Ok_0,
    )
}

fn copy_opt(o: Option<&String>) -> (r: Option<String>)
    ensures
        opt_view(r) == match o {
            Some(s) => Some(s@),
            None => None::<Seq<char>>,
        },
{
    match o {
        Some(s) => Some(s.as_str().to_owned()),
        None => None,
    }
}

impl Annotation {
    /// Reads the attributes of an annotation line. On a malformed attribute
    /// fragment the error is that fragment.
    pub fn from_gff_line(line: &GffLine) -> (r: Result<Annotation, String>)
        ensures
            r is Ok <==> attribute_pairs(line.annotation@) is Ok,
            r matches Ok(a) ==> annotation_matches(a, *line, attribute_pairs(line.annotation@)->Ok_0),
            r matches Err(e) ==> attribute_pairs(line.annotation@) == Err::<
                Seq<(Seq<char>, Seq<char>)>,
                Seq<char>,
            >(e@),
    {
        let chars = chars_of(line.annotation.as_str());
        let attributes = match Attributes::parse(&chars) {
            Ok(a) => a,
            Err(e) => return Err(string_of(e.as_slice())),
        };
        let gene_name = copy_opt(attributes.get(&"gene_name".to_owned()));
        let mane = match attributes.get(&"tag".to_owned()) {
            Some(t) => *t == "MANE_Select".to_owned(),
            None => false,
        };
        let tsl = copy_opt(attributes.get(&"transcript_support_level".to_owned()));
        let level: u8 = match attributes.get(&"level".to_owned()) {
            Some(v) => {
                let digits = chars_of(v.as_str());
                match parse_u64(digits.as_slice()) {
                    Some(n) => if n <= 255 {
                        n as u8
                    } else {
                        255
                    },
                    None => 255,
                }
            },
            None => 255,
        };
        let transcript_type = copy_opt(attributes.get(&"transcript_type".to_owned()));
        Ok(
            Annotation {
                interval: line.interval,
                gene_name,
                feature_type: line.feature_type.as_str().to_owned(),
                mane,
                tsl,
                level,
                transcript_type,
            },
        )
    }
}

} // verus!
