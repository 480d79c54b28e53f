//! The schema parser: line-oriented text to a flat mapping from dotted keys
//! to type tags, later entries overwriting earlier ones with the same key.

use vstd::prelude::*;
use crate::line::line_skipped;
use crate::line::line_key;
use crate::line::line_value;
use crate::line::split_line;
use crate::text::spec_split;
use crate::text::split_char;
use crate::text::strs_view;
use crate::text::str_eq;
use crate::tree::key_index;
use crate::tree::lemma_key_index_is_first;

verus! {

/// The abstract entries of a schema: keys and type tags as character
/// sequences, in order.
pub open spec fn schema_view(sv: Seq<(String, String)>) -> Seq<(Seq<char>, Seq<char>)> {
    sv.map_values(|p: (String, String)| (p.0@, p.1@))
}

/// A schema binding: the first entry with that key is overwritten, else the
/// binding is appended.
pub open spec fn spec_schema_insert(
    es: Seq<(Seq<char>, Seq<char>)>,
    k: Seq<char>,
    v: Seq<char>,
) -> Seq<(Seq<char>, Seq<char>)> {
    let j = key_index(es, k);
    if j == es.len() {
        es.push((k, v))
    } else {
        es.update(j, (k, v))
    }
}

/// What one line does to the schema: nothing for a skipped line, else a
/// binding of the trimmed key to the trimmed type tag.
pub open spec fn spec_schema_line_effect(es: Seq<(Seq<char>, Seq<char>)>, line: Seq<char>) -> Seq<
    (Seq<char>, Seq<char>),
> {
    if line_skipped(line) {
        es
    } else {
        spec_schema_insert(es, line_key(line), line_value(line))
    }
}

/// The schema after applying the lines in order, starting from `es`.
pub open spec fn spec_parse_schema_lines(
    es: Seq<(Seq<char>, Seq<char>)>,
    lines: Seq<Seq<char>>,
) -> Seq<(Seq<char>, Seq<char>)>
    decreases lines.len(),
{
    if lines.len() == 0 {
        es
    } else {
        spec_parse_schema_lines(spec_schema_line_effect(es, lines[0]), lines.skip(1))
    }
}

/// The flat key-to-tag mapping that a schema text parses to.
pub open spec fn spec_parse_schema(content: Seq<char>) -> Seq<(Seq<char>, Seq<char>)> {
    spec_parse_schema_lines(Seq::empty(), spec_split(content, '\n'))
}

/// Finds the first schema entry whose key reads `key`.
fn find_tag(schema: &Vec<(String, String)>, key: &str) -> (r: Option<usize>)
    ensures
        match r {
            Some(j) => j < schema@.len() && key_index(schema_view(schema@), key@) == j,
            None => key_index(schema_view(schema@), key@) == schema@.len() as int,
        },
{
    let n = schema.len();
    let mut i: usize = 0;
    while i < n
        invariant
            0 <= i <= n,
            n == schema@.len(),
            forall|l: int| 0 <= l < i ==> schema_view(schema@)[l].0 != key@,
        decreases n - i,
    {
        if str_eq(schema[i].0.as_str(), key) {
            proof {
                lemma_key_index_is_first(schema_view(schema@), key@, i as int);
            }
            return Some(i);
        }
        i = i + 1;
    }
    proof {
        lemma_key_index_is_first(schema_view(schema@), key@, n as int);
    }
    None
}

/// Applies one schema line to the mapping under construction.
fn apply_schema_line(schema: &mut Vec<(String, String)>, line: &str)
    ensures
        schema_view(final(schema)@) == spec_schema_line_effect(schema_view(old(schema)@), line@),
{
    match split_line(line) {
        None => {},
        Some(kv) => {
            let (key, value) = kv;
            let ghost sv0 = schema_view(old(schema)@);
            match find_tag(schema, key.as_str()) {
                None => {
                    schema.push((key, value));
                    proof {
                        assert(schema_view(schema@) =~= sv0.push((key@, value@)));
                    }
                },
                Some(j) => {
                    schema.remove(j);
                    schema.insert(j, (key, value));
                    proof {
                        assert(schema_view(schema@) =~= sv0.update(j as int, (key@, value@)));
                    }
                },
            }
        },
    }
}

/// Parses a schema text into its flat key-to-tag entries, as
/// `spec_parse_schema` describes: lines in order, each `key = tag` line a
/// binding that overwrites an earlier one with the same key, blank lines,
/// comments and lines without `=` skipped.
pub fn parse_schema_text(content: &str) -> (schema: Vec<(String, String)>)
    ensures
        schema_view(schema@) == spec_parse_schema(content@),
{
    let ghost all_lines = spec_split(content@, '\n');
    let lines = split_char(content, '\n');
    let n = lines.len();
    let mut schema: Vec<(String, String)> = Vec::new();
    let mut i: usize = 0;
    proof {
        assert(all_lines.skip(0) =~= all_lines);
        assert(schema_view(schema@) =~= Seq::<(Seq<char>, Seq<char>)>::empty());
    }
    while i < n
        invariant
            0 <= i <= n,
            n == all_lines.len(),
            strs_view(lines@) == all_lines,
            spec_parse_schema_lines(schema_view(schema@), all_lines.skip(i as int))
                == spec_parse_schema(content@),
        decreases n - i,
    {
        let ghost rest = all_lines.skip(i as int);
        proof {
            assert(lines@[i as int]@ == all_lines[i as int]);
            assert(rest[0] == all_lines[i as int]);
        }
        apply_schema_line(&mut schema, lines[i].as_str());
        proof {
            assert(rest.skip(1) =~= all_lines.skip(i + 1));
        }
        i = i + 1;
    }
    proof {
        assert(all_lines.skip(n as int) =~= Seq::<Seq<char>>::empty());
    }
    schema
}

} // verus!
