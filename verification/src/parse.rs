//! The configuration parser: line-oriented text to a nested tree of string
//! leaves under dotted keys.

use vstd::prelude::*;
use crate::line::line_skipped;
use crate::line::line_key;
use crate::line::line_value;
use crate::line::split_line;
use crate::text::spec_split;
use crate::text::split_char;
use crate::text::strs_view;
use crate::text::find_char;
use crate::text::lemma_find_char;
use crate::text::lemma_split_nonempty;
use crate::tree::ConfigValue;
use crate::tree::Node;
use crate::tree::entries_view;
use crate::tree::spec_insert;
use crate::tree::spec_lookup;
use crate::tree::path_clear;
use crate::tree::key_index;
use crate::tree::insert_recursive;
use crate::tree::lemma_insert_then_lookup;

verus! {

/// What one line does to the tree: nothing for a skipped line, else an
/// insertion of the trimmed value at the dotted key.
pub open spec fn spec_line_effect(es: Seq<(Seq<char>, Node)>, line: Seq<char>) -> Seq<
    (Seq<char>, Node),
> {
    if line_skipped(line) {
        es
    } else {
        spec_insert(es, spec_split(line_key(line), '.'), line_value(line))
    }
}

/// The tree after applying the lines in order, starting from `es`.
pub open spec fn spec_parse_lines(es: Seq<(Seq<char>, Node)>, lines: Seq<Seq<char>>) -> Seq<
    (Seq<char>, Node),
>
    decreases lines.len(),
{
    if lines.len() == 0 {
        es
    } else {
        spec_parse_lines(spec_line_effect(es, lines[0]), lines.skip(1))
    }
}

/// The root entries that a configuration text parses to.
pub open spec fn spec_parse_config(content: Seq<char>) -> Seq<(Seq<char>, Node)> {
    spec_parse_lines(Seq::empty(), spec_split(content, '\n'))
}

/// A skipped line never alters the tree: blank lines, comments, and lines
/// without `=` have no effect.
pub proof fn lemma_skipped_line_no_effect(es: Seq<(Seq<char>, Node)>, line: Seq<char>)
    requires
        line_skipped(line),
    ensures
        spec_line_effect(es, line) == es,
{
}

/// A well-formed `key = value` line, applied to a tree in which no inner
/// segment of the key's dotted path is blocked by a leaf, can be read back:
/// looking up the same dotted key yields the trimmed value.
pub proof fn lemma_line_then_lookup(es: Seq<(Seq<char>, Node)>, line: Seq<char>)
    requires
        !line_skipped(line),
        path_clear(es, spec_split(line_key(line), '.')),
    ensures
        spec_lookup(spec_line_effect(es, line), spec_split(line_key(line), '.')) == Some(
            line_value(line),
        ),
{
    lemma_split_nonempty(line_key(line), '.');
    lemma_insert_then_lookup(es, spec_split(line_key(line), '.'), line_value(line));
}

/// Parsing a text that is one well-formed `key = value` line, then looking up
/// its dotted key, yields its trimmed value.
pub proof fn lemma_parse_single_line_then_lookup(line: Seq<char>)
    requires
        !line_skipped(line),
        find_char(line, '\n') == line.len(),
    ensures
        spec_lookup(spec_parse_config(line), spec_split(line_key(line), '.')) == Some(
            line_value(line),
        ),
{
    lemma_find_char(line, '\n');
    let lines = seq![line];
    assert(spec_split(line, '\n') == lines);
    assert(lines.skip(1) =~= Seq::<Seq<char>>::empty());
    assert(lines[0] == line);
    assert(spec_parse_config(line) == spec_parse_lines(
        spec_line_effect(Seq::empty(), line),
        lines.skip(1),
    ));
    assert(spec_parse_config(line) == spec_line_effect(Seq::empty(), line));
    lemma_split_nonempty(line_key(line), '.');
    let path = spec_split(line_key(line), '.');
    assert(key_index(Seq::<(Seq<char>, Node)>::empty(), path[0]) == 0);
    assert(path_clear(Seq::empty(), path));
    lemma_line_then_lookup(Seq::empty(), line);
}

/// Parsing the same text twice yields equal trees.
pub proof fn lemma_parse_deterministic(
    t1: Seq<(Seq<char>, Node)>,
    t2: Seq<(Seq<char>, Node)>,
    content: Seq<char>,
)
    requires
        t1 == spec_parse_config(content),
        t2 == spec_parse_config(content),
    ensures
        t1 == t2,
{
}

/// Applies one configuration line to the tree under construction.
fn apply_config_line(root: &mut Vec<(String, ConfigValue)>, line: &str)
    ensures
        entries_view(final(root)@) == spec_line_effect(entries_view(old(root)@), line@),
{
    match split_line(line) {
        None => {},
        Some(kv) => {
            let (key, value) = kv;
            proof {
                lemma_split_nonempty(key@, '.');
            }
            let keys = split_char(key.as_str(), '.');
            insert_recursive(root, keys.as_slice(), value);
        },
    }
}

/// Parses a configuration text into the root entries of its tree, as
/// `spec_parse_config` describes: lines in order, each `key = value` line an
/// insertion at its dotted key, blank lines, comments and lines without `=`
/// skipped.
pub fn parse_config_text(content: &str) -> (root: Vec<(String, ConfigValue)>)
    ensures
        entries_view(root@) == spec_parse_config(content@),
{
    let ghost all_lines = spec_split(content@, '\n');
    let lines = split_char(content, '\n');
    let n = lines.len();
    let mut root: Vec<(String, ConfigValue)> = Vec::new();
    let mut i: usize = 0;
    proof {
        assert(all_lines.skip(0) =~= all_lines);
    }
    while i < n
        invariant
            0 <= i <= n,
            n == all_lines.len(),
            strs_view(lines@) == all_lines,
            spec_parse_lines(entries_view(root@), all_lines.skip(i as int)) == spec_parse_config(
                content@,
            ),
        decreases n - i,
    {
        let ghost rest = all_lines.skip(i as int);
        proof {
            assert(lines@[i as int]@ == all_lines[i as int]);
            assert(rest[0] == all_lines[i as int]);
        }
        apply_config_line(&mut root, lines[i].as_str());
        proof {
            assert(rest.skip(1) =~= all_lines.skip(i + 1));
        }
        i = i + 1;
    }
    proof {
        assert(all_lines.skip(n as int) =~= Seq::<Seq<char>>::empty());
    }
    root
}

} // verus!
