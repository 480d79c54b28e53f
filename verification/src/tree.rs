//! The configuration tree: string leaves under nested maps, addressed by
//! dotted key paths.

use vstd::prelude::*;
use vstd::string::StrSliceExecFns;
use crate::text::spec_split;
use crate::text::split_char;
use crate::text::str_eq;
use crate::text::strs_view;
use crate::text::lemma_split_nonempty;

verus! {

/// A parsed configuration value: a raw string leaf, or a map of entries
/// forming an inner node of the tree.
#[derive(Debug, PartialEq, Eq)]
pub enum ConfigValue {
    String(String),
    Table(Vec<(String, ConfigValue)>),
}

/// The abstract shape of a configuration value: keys and leaves as character
/// sequences.
#[verifier::ext_equal]
pub enum Node {
    Leaf(Seq<char>),
    Sub(Seq<(Seq<char>, Node)>),
}

/// The abstract shape of a configuration value.
pub open spec fn node_view(v: ConfigValue) -> Node
    decreases v,
{
    match v {
        ConfigValue::String(s) => Node::Leaf(s@),
        ConfigValue::Table(es) => Node::Sub(entries_view(es@)),
    }
}

/// The abstract entries of a map node, in order.
pub open spec fn entries_view(es: Seq<(String, ConfigValue)>) -> Seq<(Seq<char>, Node)>
    decreases es,
{
    if es.len() == 0 {
        Seq::empty()
    } else {
        entries_view(es.drop_last()).push((es.last().0@, node_view(es.last().1)))
    }
}

impl View for ConfigValue {
    type V = Node;

    open spec fn view(&self) -> Node {
        node_view(*self)
    }
}

/// `entries_view` maps the entries one for one.
pub proof fn lemma_entries_view(es: Seq<(String, ConfigValue)>)
    ensures
        entries_view(es).len() == es.len(),
        forall|i: int|
            0 <= i < es.len() ==> entries_view(es)[i] == (es[i].0@, node_view(es[i].1)),
    decreases es,
{
    if es.len() > 0 {
        lemma_entries_view(es.drop_last());
    }
}

/// Index of the first entry whose key is `k`, or the number of entries if
/// there is none.
pub open spec fn key_index<V>(es: Seq<(Seq<char>, V)>, k: Seq<char>) -> int
    decreases es.len(),
{
    if es.len() == 0 {
        0
    } else if es[0].0 == k {
        0
    } else {
        1 + key_index(es.skip(1), k)
    }
}

/// `key_index` is in bounds, hits `k` when it is short of the length, and no
/// earlier entry has key `k`.
pub proof fn lemma_key_index<V>(es: Seq<(Seq<char>, V)>, k: Seq<char>)
    ensures
        0 <= key_index(es, k) <= es.len(),
        key_index(es, k) < es.len() ==> es[key_index(es, k)].0 == k,
        forall|i: int| 0 <= i < key_index(es, k) ==> es[i].0 != k,
    decreases es.len(),
{
    if es.len() == 0 {
    } else if es[0].0 == k {
    } else {
        lemma_key_index(es.skip(1), k);
        assert forall|i: int| 0 <= i < key_index(es, k) implies es[i].0 != k by {
            if i > 0 {
                assert(es.skip(1)[i - 1] == es[i]);
            }
        }
    }
}

/// An index that is the first entry with key `k`, or the length when no entry
/// has key `k`, is exactly `key_index`.
pub proof fn lemma_key_index_is_first<V>(es: Seq<(Seq<char>, V)>, k: Seq<char>, j: int)
    requires
        0 <= j <= es.len(),
        forall|i: int| 0 <= i < j ==> es[i].0 != k,
        j < es.len() ==> es[j].0 == k,
    ensures
        key_index(es, k) == j,
{
    lemma_key_index(es, k);
}

/// The leaf value at a dotted path below these entries: each inner segment
/// must reach a map node and the final segment a leaf, else nothing.
pub open spec fn spec_lookup(es: Seq<(Seq<char>, Node)>, path: Seq<Seq<char>>) -> Option<
    Seq<char>,
>
    decreases path.len(),
{
    if path.len() == 0 {
        None
    } else {
        let j = key_index(es, path[0]);
        if j == es.len() {
            None
        } else if path.len() == 1 {
            match es[j].1 {
                Node::Leaf(s) => Some(s),
                Node::Sub(_) => None,
            }
        } else {
            match es[j].1 {
                Node::Sub(inner) => spec_lookup(inner, path.skip(1)),
                Node::Leaf(_) => None,
            }
        }
    }
}

/// The entries after inserting `value` at dotted `path`: the insertion
/// descends through map nodes, creating them where a segment is absent; an
/// existing leaf at an inner segment blocks it and the entries stay as they
/// were; at the final segment the leaf is created or overwritten.
pub open spec fn spec_insert(
    es: Seq<(Seq<char>, Node)>,
    path: Seq<Seq<char>>,
    value: Seq<char>,
) -> Seq<(Seq<char>, Node)>
    decreases path.len(),
{
    if path.len() == 0 {
        es
    } else {
        let j = key_index(es, path[0]);
        if path.len() == 1 {
            if j == es.len() {
                es.push((path[0], Node::Leaf(value)))
            } else {
                es.update(j, (path[0], Node::Leaf(value)))
            }
        } else {
            if j == es.len() {
                es.push((path[0], Node::Sub(spec_insert(Seq::empty(), path.skip(1), value))))
            } else {
                match es[j].1 {
                    Node::Sub(inner) => es.update(
                        j,
                        (path[0], Node::Sub(spec_insert(inner, path.skip(1), value))),
                    ),
                    Node::Leaf(_) => es,
                }
            }
        }
    }
}

/// No inner segment of `path` runs into an existing leaf, so an insertion at
/// `path` reaches the final segment and sets the leaf there.
pub open spec fn path_clear(es: Seq<(Seq<char>, Node)>, path: Seq<Seq<char>>) -> bool
    decreases path.len(),
{
    path.len() <= 1 || {
        let j = key_index(es, path[0]);
        j == es.len() || (match es[j].1 {
            Node::Sub(inner) => path_clear(inner, path.skip(1)),
            Node::Leaf(_) => false,
        })
    }
}

/// Inserting at a dotted path whose inner segments are not blocked by leaves,
/// then looking the same path up, yields the inserted value.
pub proof fn lemma_insert_then_lookup(
    es: Seq<(Seq<char>, Node)>,
    path: Seq<Seq<char>>,
    value: Seq<char>,
)
    requires
        path.len() >= 1,
        path_clear(es, path),
    ensures
        spec_lookup(spec_insert(es, path, value), path) == Some(value),
    decreases path.len(),
{
    let j = key_index(es, path[0]);
    lemma_key_index(es, path[0]);
    if path.len() == 1 {
        if j == es.len() {
            let es2 = es.push((path[0], Node::Leaf(value)));
            lemma_key_index_is_first(es2, path[0], j);
        } else {
            let es2 = es.update(j, (path[0], Node::Leaf(value)));
            lemma_key_index_is_first(es2, path[0], j);
        }
    } else {
        if j == es.len() {
            let inner2 = spec_insert(Seq::empty(), path.skip(1), value);
            let es2 = es.push((path[0], Node::Sub(inner2)));
            lemma_key_index_is_first(es2, path[0], j);
            lemma_insert_then_lookup(Seq::empty(), path.skip(1), value);
        } else {
            match es[j].1 {
                Node::Sub(inner) => {
                    let inner2 = spec_insert(inner, path.skip(1), value);
                    let es2 = es.update(j, (path[0], Node::Sub(inner2)));
                    lemma_key_index_is_first(es2, path[0], j);
                    lemma_insert_then_lookup(inner, path.skip(1), value);
                },
                Node::Leaf(_) => {},
            }
        }
    }
}

/// Insertion at a clear path leaves the path clear, so a later insertion at
/// the same path succeeds as well.
pub proof fn lemma_path_clear_insert(
    es: Seq<(Seq<char>, Node)>,
    path: Seq<Seq<char>>,
    value: Seq<char>,
)
    requires
        path.len() >= 1,
        path_clear(es, path),
    ensures
        path_clear(spec_insert(es, path, value), path),
    decreases path.len(),
{
    let j = key_index(es, path[0]);
    lemma_key_index(es, path[0]);
    if path.len() == 1 {
    } else {
        if j == es.len() {
            let inner2 = spec_insert(Seq::empty(), path.skip(1), value);
            let es2 = es.push((path[0], Node::Sub(inner2)));
            lemma_key_index_is_first(es2, path[0], j);
            lemma_path_clear_insert(Seq::empty(), path.skip(1), value);
        } else {
            match es[j].1 {
                Node::Sub(inner) => {
                    let inner2 = spec_insert(inner, path.skip(1), value);
                    let es2 = es.update(j, (path[0], Node::Sub(inner2)));
                    lemma_key_index_is_first(es2, path[0], j);
                    lemma_path_clear_insert(inner, path.skip(1), value);
                },
                Node::Leaf(_) => {},
            }
        }
    }
}

/// Of two insertions at the same dotted path, only the later one's value can
/// be read back.
pub proof fn lemma_last_insert_wins(
    es: Seq<(Seq<char>, Node)>,
    path: Seq<Seq<char>>,
    v1: Seq<char>,
    v2: Seq<char>,
)
    requires
        path.len() >= 1,
        path_clear(es, path),
    ensures
        spec_lookup(spec_insert(spec_insert(es, path, v1), path, v2), path) == Some(v2),
{
    lemma_path_clear_insert(es, path, v1);
    lemma_insert_then_lookup(spec_insert(es, path, v1), path, v2);
}

/// Finds the first entry of `map` whose key reads `key`.
fn find_key(map: &Vec<(String, ConfigValue)>, key: &str) -> (r: Option<usize>)
    ensures
        match r {
            Some(j) => j < map@.len() && key_index(entries_view(map@), key@) == j,
            None => key_index(entries_view(map@), key@) == map@.len() as int,
        },
{
    proof {
        lemma_entries_view(map@);
    }
    let n = map.len();
    let mut i: usize = 0;
    while i < n
        invariant
            0 <= i <= n,
            n == map@.len(),
            entries_view(map@).len() == n,
            forall|l: int|
                0 <= l < n ==> entries_view(map@)[l] == (map@[l].0@, node_view(map@[l].1)),
            forall|l: int| 0 <= l < i ==> entries_view(map@)[l].0 != key@,
        decreases n - i,
    {
        if str_eq(map[i].0.as_str(), key) {
            proof {
                lemma_key_index_is_first(entries_view(map@), key@, i as int);
            }
            return Some(i);
        }
        i = i + 1;
    }
    proof {
        lemma_key_index_is_first(entries_view(map@), key@, n as int);
    }
    None
}

/// Inserts `value` at the dotted path `keys` below `map`, as `spec_insert`
/// describes.
pub fn insert_recursive(map: &mut Vec<(String, ConfigValue)>, keys: &[String], value: String)
    requires
        keys@.len() >= 1,
    ensures
        entries_view(final(map)@) == spec_insert(entries_view(old(map)@), strs_view(keys@), value@),
    decreases keys@.len(),
{
    let ghost es0 = entries_view(old(map)@);
    let ghost path = strs_view(keys@);
    proof {
        lemma_entries_view(old(map)@);
        assert(path[0] == keys@[0]@);
    }
    let found = find_key(map, keys[0].as_str());
    if keys.len() == 1 {
        match found {
            None => {
                map.push((keys[0].clone(), ConfigValue::String(value)));
                proof {
                    lemma_entries_view(map@);
                    assert(entries_view(map@) =~= es0.push((path[0], Node::Leaf(value@))));
                }
            },
            Some(j) => {
                map.remove(j);
                map.insert(j, (keys[0].clone(), ConfigValue::String(value)));
                proof {
                    lemma_entries_view(map@);
                    assert(entries_view(map@) =~= es0.update(
                        j as int,
                        (path[0], Node::Leaf(value@)),
                    ));
                }
            },
        }
    } else {
        match found {
            None => {
                let mut inner: Vec<(String, ConfigValue)> = Vec::new();
                insert_recursive(&mut inner, &keys[1..keys.len()], value);
                proof {
                    assert(strs_view(keys@.subrange(1, keys@.len() as int)) =~= path.skip(1));
                    assert(entries_view(Seq::<(String, ConfigValue)>::empty()) == Seq::<
                        (Seq<char>, Node),
                    >::empty());
                }
                map.push((keys[0].clone(), ConfigValue::Table(inner)));
                proof {
                    lemma_entries_view(map@);
                    assert(entries_view(map@) =~= es0.push(
                        (path[0], Node::Sub(spec_insert(Seq::empty(), path.skip(1), value@))),
                    ));
                }
            },
            Some(j) => {
                proof {
                    lemma_key_index(es0, path[0]);
                }
                let (k, node) = map.remove(j);
                let ghost kview = k@;
                match node {
                    ConfigValue::Table(mut inner) => {
                        let ghost inner0 = entries_view(inner@);
                        insert_recursive(&mut inner, &keys[1..keys.len()], value);
                        proof {
                            assert(strs_view(keys@.subrange(1, keys@.len() as int)) =~= path.skip(
                                1,
                            ));
                        }
                        map.insert(j, (k, ConfigValue::Table(inner)));
                        proof {
                            lemma_entries_view(map@);
                            assert(kview == path[0]);
                            assert(es0[j as int].1 == Node::Sub(inner0));
                            assert(entries_view(map@) =~= es0.update(
                                j as int,
                                (path[0], Node::Sub(spec_insert(inner0, path.skip(1), value@))),
                            ));
                        }
                    },
                    ConfigValue::String(s) => {
                        map.insert(j, (k, ConfigValue::String(s)));
                        proof {
                            lemma_entries_view(map@);
                            assert(es0[j as int].1 is Leaf);
                            assert(entries_view(map@) =~= es0);
                        }
                    },
                }
            },
        }
    }
}

/// Looks up the dotted `key`: splits it on dots and descends the tree; yields
/// the leaf string the path reaches, as `spec_lookup` describes.
pub fn get_value<'a>(map: &'a Vec<(String, ConfigValue)>, key: &str) -> (r: Option<&'a String>)
    ensures
        match r {
            Some(s) => spec_lookup(entries_view(map@), spec_split(key@, '.')) == Some(s@),
            None => spec_lookup(entries_view(map@), spec_split(key@, '.')) is None,
        },
{
    let ghost path = spec_split(key@, '.');
    proof {
        lemma_split_nonempty(key@, '.');
    }
    let keys = split_char(key, '.');
    let n = keys.len();
    let mut cur: &'a Vec<(String, ConfigValue)> = map;
    let mut i: usize = 0;
    proof {
        assert(path.skip(0) =~= path);
    }
    while i + 1 < n
        invariant
            0 <= i < n,
            n == path.len(),
            path == spec_split(key@, '.'),
            strs_view(keys@) == path,
            spec_lookup(entries_view(map@), path) == spec_lookup(
                entries_view(cur@),
                path.skip(i as int),
            ),
        decreases n - i,
    {
        let ghost rest = path.skip(i as int);
        proof {
            lemma_entries_view(cur@);
            assert(keys@[i as int]@ == path[i as int]);
            assert(rest[0] == path[i as int]);
            assert(rest.len() == n - i);
        }
        match find_key(cur, keys[i].as_str()) {
            None => {
                return None;
            },
            Some(j) => {
                match &cur[j].1 {
                    ConfigValue::Table(inner) => {
                        proof {
                            assert(entries_view(cur@)[j as int].1 == Node::Sub(
                                entries_view(inner@),
                            ));
                            assert(rest.skip(1) =~= path.skip(i + 1));
                        }
                        cur = inner;
                        i = i + 1;
                    },
                    ConfigValue::String(_) => {
                        proof {
                            assert(entries_view(cur@)[j as int].1 is Leaf);
                        }
                        return None;
                    },
                }
            },
        }
    }
    let ghost rest = path.skip(i as int);
    proof {
        lemma_entries_view(cur@);
        assert(rest.len() == 1);
        assert(keys@[i as int]@ == path[i as int]);
        assert(rest[0] == path[i as int]);
    }
    match find_key(cur, keys[i].as_str()) {
        None => None,
        Some(j) => {
            match &cur[j].1 {
                ConfigValue::String(s) => {
                    proof {
                        assert(entries_view(cur@)[j as int].1 == Node::Leaf(s@));
                    }
                    Some(s)
                },
                ConfigValue::Table(_) => {
                    proof {
                        assert(entries_view(cur@)[j as int].1 is Sub);
                    }
                    None
                },
            }
        },
    }
}

} // verus!
