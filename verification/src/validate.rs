//! The validator: resolves each schema key in the configuration tree and
//! checks the leaf's raw string against the declared type tag.

use vstd::prelude::*;
use vstd::string::StrSliceExecFns;
use crate::text::spec_split;
use crate::text::str_eq;
use crate::tree::ConfigValue;
use crate::tree::Node;
use crate::tree::entries_view;
use crate::tree::spec_lookup;
use crate::tree::get_value;
use crate::schema::schema_view;

verus! {

/// Why a configuration failed validation, naming the offending dotted key.
#[derive(Debug, PartialEq, Eq)]
pub enum ValidationError {
    MissingKey(String),
    InvalidBool(String),
    InvalidInteger(String),
}

/// The abstract form of a validation error.
pub enum SpecError {
    MissingKey(Seq<char>),
    InvalidBool(Seq<char>),
    InvalidInteger(Seq<char>),
}

impl View for ValidationError {
    type V = SpecError;

    open spec fn view(&self) -> SpecError {
        match self {
            ValidationError::MissingKey(k) => SpecError::MissingKey(k@),
            ValidationError::InvalidBool(k) => SpecError::InvalidBool(k@),
            ValidationError::InvalidInteger(k) => SpecError::InvalidInteger(k@),
        }
    }
}

/// The boolean literals that validation accepts: exactly `true` and `false`.
pub open spec fn is_bool_str(s: Seq<char>) -> bool {
    s == "true"@ || s == "false"@
}

/// Whether `s` is a recognized boolean literal.
pub fn is_bool_literal(s: &str) -> (r: bool)
    ensures
        r == is_bool_str(s@),
{
    str_eq(s, "true") || str_eq(s, "false")
}

/// A decimal digit.
pub open spec fn is_digit(c: char) -> bool {
    48 <= c as u32 && c as u32 <= 57
}

/// The value of a decimal digit.
pub open spec fn digit_val(c: char) -> int {
    c as u32 - 48
}

/// Whether every character of `s` is a decimal digit.
pub open spec fn all_digits(s: Seq<char>) -> bool {
    forall|i: int| 0 <= i < s.len() ==> is_digit(s[i])
}

/// The number denoted by decimal digits, most significant first.
pub open spec fn digits_val(s: Seq<char>) -> int
    decreases s.len(),
{
    if s.len() == 0 {
        0
    } else {
        digits_val(s.drop_last()) * 10 + digit_val(s.last())
    }
}

/// The strings accepted as 64-bit signed integers: an optional leading minus
/// sign, then at least one decimal digit, denoting a value in the i64 range.
pub open spec fn is_i64_str(s: Seq<char>) -> bool {
    if s.len() > 0 && s[0] == '-' {
        let d = s.skip(1);
        d.len() > 0 && all_digits(d) && digits_val(d) <= 9223372036854775808
    } else {
        s.len() > 0 && all_digits(s) && digits_val(s) <= 9223372036854775807
    }
}

/// A digit string denotes a number that is not negative.
proof fn lemma_digits_val_nonneg(s: Seq<char>)
    requires
        all_digits(s),
    ensures
        digits_val(s) >= 0,
    decreases s.len(),
{
    if s.len() > 0 {
        assert(all_digits(s.drop_last()));
        lemma_digits_val_nonneg(s.drop_last());
    }
}

/// Digits to the right only grow the denoted number: a prefix denotes at most
/// the whole.
proof fn lemma_digits_val_prefix(s: Seq<char>, i: int)
    requires
        all_digits(s),
        0 <= i <= s.len(),
    ensures
        digits_val(s.take(i)) <= digits_val(s),
    decreases s.len() - i,
{
    if i == s.len() {
        assert(s.take(i) =~= s);
    } else {
        assert(s.take(i + 1).drop_last() =~= s.take(i));
        assert(s.take(i + 1).last() == s[i]);
        assert(all_digits(s.take(i)));
        lemma_digits_val_nonneg(s.take(i));
        lemma_digits_val_prefix(s, i + 1);
    }
}

/// Whether `s` denotes a 64-bit signed integer.
pub fn is_i64_literal(s: &str) -> (r: bool)
    ensures
        r == is_i64_str(s@),
{
    let n = s.unicode_len();
    if n == 0 {
        return false;
    }
    let neg = s.get_char(0) == '-';
    let start: usize = if neg {
        1
    } else {
        0
    };
    if start == n {
        return false;
    }
    let ghost d = s@.skip(start as int);
    let bound: u128 = if neg {
        9_223_372_036_854_775_808u128
    } else {
        9_223_372_036_854_775_807u128
    };
    let mut acc: u128 = 0;
    let mut i: usize = start;
    proof {
        assert(d.take(0) =~= Seq::<char>::empty());
    }
    while i < n
        invariant
            start <= i <= n,
            n == s@.len(),
            n > 0,
            neg == (s@[0] == '-'),
            start == (if neg {
                1int
            } else {
                0int
            }),
            start < n,
            d == s@.skip(start as int),
            bound == (if neg {
                9_223_372_036_854_775_808u128
            } else {
                9_223_372_036_854_775_807u128
            }),
            all_digits(d.take(i - start)),
            acc == digits_val(d.take(i - start)),
            acc <= bound,
        decreases n - i,
    {
        let c = s.get_char(i);
        let u = c as u32;
        proof {
            assert(d[i - start] == s@[i as int]);
            if !neg {
                assert(d =~= s@);
            }
        }
        if u < 48 || u > 57 {
            return false;
        }
        let dv: u128 = (u - 48) as u128;
        let acc2: u128 = acc * 10 + dv;
        proof {
            assert(d.take(i - start + 1).drop_last() =~= d.take(i - start));
            assert(d.take(i - start + 1).last() == d[i - start]);
        }
        if acc2 > bound {
            proof {
                if all_digits(d) {
                    lemma_digits_val_prefix(d, i - start + 1);
                }
            }
            return false;
        }
        acc = acc2;
        i = i + 1;
    }
    proof {
        assert(d.take(n - start) =~= d);
        if !neg {
            assert(d =~= s@);
        }
    }
    true
}

/// The outcome of checking one schema entry: the key must resolve to a leaf,
/// and the leaf must parse under the declared tag; any tag other than `bool`
/// and `integer` accepts every string.
pub open spec fn spec_check_entry(
    cfg: Seq<(Seq<char>, Node)>,
    key: Seq<char>,
    ty: Seq<char>,
) -> Option<SpecError> {
    match spec_lookup(cfg, spec_split(key, '.')) {
        None => Some(SpecError::MissingKey(key)),
        Some(v) => if ty == "bool"@ && !is_bool_str(v) {
            Some(SpecError::InvalidBool(key))
        } else if ty == "integer"@ && !is_i64_str(v) {
            Some(SpecError::InvalidInteger(key))
        } else {
            None
        },
    }
}

/// The first failing schema entry's error, in entry order, if any.
pub open spec fn spec_validate(
    cfg: Seq<(Seq<char>, Node)>,
    schema: Seq<(Seq<char>, Seq<char>)>,
) -> Option<SpecError>
    decreases schema.len(),
{
    if schema.len() == 0 {
        None
    } else {
        match spec_check_entry(cfg, schema[0].0, schema[0].1) {
            Some(e) => Some(e),
            None => spec_validate(cfg, schema.skip(1)),
        }
    }
}

/// Validation passes exactly when every schema entry, in any position,
/// resolves in the configuration and type-checks.
pub proof fn lemma_validate_ok_iff_all_pass(
    cfg: Seq<(Seq<char>, Node)>,
    schema: Seq<(Seq<char>, Seq<char>)>,
)
    ensures
        spec_validate(cfg, schema) is None <==> (forall|i: int|
            0 <= i < schema.len() ==> #[trigger] spec_check_entry(cfg, schema[i].0, schema[i].1)
                is None),
    decreases schema.len(),
{
    if schema.len() > 0 {
        lemma_validate_ok_iff_all_pass(cfg, schema.skip(1));
        if spec_check_entry(cfg, schema[0].0, schema[0].1) is None {
            if spec_validate(cfg, schema) is None {
                assert forall|i: int| 0 <= i < schema.len() implies #[trigger] spec_check_entry(
                    cfg,
                    schema[i].0,
                    schema[i].1,
                ) is None by {
                    if i > 0 {
                        assert(schema.skip(1)[i - 1] == schema[i]);
                    }
                }
            } else {
                if forall|i: int|
                    0 <= i < schema.len() ==> #[trigger] spec_check_entry(
                        cfg,
                        schema[i].0,
                        schema[i].1,
                    ) is None {
                    assert forall|i: int|
                        0 <= i < schema.skip(1).len() implies #[trigger] spec_check_entry(
                        cfg,
                        schema.skip(1)[i].0,
                        schema.skip(1)[i].1,
                    ) is None by {
                        assert(schema.skip(1)[i] == schema[i + 1]);
                        assert(spec_check_entry(cfg, schema[i + 1].0, schema[i + 1].1) is None);
                    }
                    assert(spec_validate(cfg, schema.skip(1)) is None);
                }
            }
        }
    }
}

/// A failing validation reports the error of the first schema entry that
/// fails: the entries before it all pass.
pub proof fn lemma_validate_err_is_first_failure(
    cfg: Seq<(Seq<char>, Node)>,
    schema: Seq<(Seq<char>, Seq<char>)>,
)
    requires
        spec_validate(cfg, schema) is Some,
    ensures
        exists|i: int|
            0 <= i < schema.len() && #[trigger] spec_check_entry(cfg, schema[i].0, schema[i].1)
                == spec_validate(cfg, schema) && (forall|j: int|
                0 <= j < i ==> spec_check_entry(cfg, schema[j].0, schema[j].1) is None),
    decreases schema.len(),
{
    if spec_check_entry(cfg, schema[0].0, schema[0].1) is Some {
        assert(0 <= 0 < schema.len() && spec_check_entry(cfg, schema[0].0, schema[0].1)
            == spec_validate(cfg, schema) && (forall|j: int|
            0 <= j < 0 ==> spec_check_entry(cfg, schema[j].0, schema[j].1) is None));
    } else {
        lemma_validate_err_is_first_failure(cfg, schema.skip(1));
        let i0 = choose|i: int|
            0 <= i < schema.skip(1).len() && #[trigger] spec_check_entry(
                cfg,
                schema.skip(1)[i].0,
                schema.skip(1)[i].1,
            ) == spec_validate(cfg, schema.skip(1)) && (forall|j: int|
                0 <= j < i ==> spec_check_entry(cfg, schema.skip(1)[j].0, schema.skip(1)[j].1)
                    is None);
        assert(schema.skip(1)[i0] == schema[i0 + 1]);
        assert forall|j: int|
            0 <= j < i0 + 1 implies spec_check_entry(cfg, schema[j].0, schema[j].1) is None by {
            if j > 0 {
                assert(schema.skip(1)[j - 1] == schema[j]);
            }
        }
        assert(0 <= i0 + 1 < schema.len() && spec_check_entry(
            cfg,
            schema[i0 + 1].0,
            schema[i0 + 1].1,
        ) == spec_validate(cfg, schema) && (forall|j: int|
            0 <= j < i0 + 1 ==> spec_check_entry(cfg, schema[j].0, schema[j].1) is None));
    }
}

/// A schema key whose dotted path is absent from the configuration never
/// passes: its own entry yields a missing-key error, and the validation of
/// the whole schema reports a failure.
pub proof fn lemma_missing_key_fails(
    cfg: Seq<(Seq<char>, Node)>,
    schema: Seq<(Seq<char>, Seq<char>)>,
    i: int,
)
    requires
        0 <= i < schema.len(),
        spec_lookup(cfg, spec_split(schema[i].0, '.')) is None,
    ensures
        spec_check_entry(cfg, schema[i].0, schema[i].1) == Some(
            SpecError::MissingKey(schema[i].0),
        ),
        spec_validate(cfg, schema) is Some,
    decreases i,
{
    if i > 0 {
        if spec_check_entry(cfg, schema[0].0, schema[0].1) is None {
            lemma_missing_key_fails(cfg, schema.skip(1), i - 1);
            assert(schema.skip(1)[i - 1] == schema[i]);
        }
    }
}

/// Validates the configuration against the schema: resolves each schema key
/// in entry order and checks the leaf against the declared tag; stops at the
/// first failure, as `spec_validate` describes.
pub fn validate(config: &Vec<(String, ConfigValue)>, schema: &Vec<(String, String)>) -> (r: Result<
    (),
    ValidationError,
>)
    ensures
        match r {
            Ok(_) => spec_validate(entries_view(config@), schema_view(schema@)) is None,
            Err(e) => spec_validate(entries_view(config@), schema_view(schema@)) == Some(e@),
        },
{
    let ghost cfg = entries_view(config@);
    let ghost sv = schema_view(schema@);
    let n = schema.len();
    let mut i: usize = 0;
    proof {
        assert(sv.skip(0) =~= sv);
    }
    while i < n
        invariant
            0 <= i <= n,
            n == schema@.len(),
            cfg == entries_view(config@),
            sv == schema_view(schema@),
            spec_validate(cfg, sv.skip(i as int)) == spec_validate(cfg, sv),
        decreases n - i,
    {
        let ghost rest = sv.skip(i as int);
        proof {
            reveal_strlit("bool");
            reveal_strlit("integer");
            assert(sv.len() == schema@.len());
            assert(rest.len() == n - i);
            assert(rest[0] == sv[i as int]);
            assert(sv[i as int] == (schema@[i as int].0@, schema@[i as int].1@));
        }
        let entry = &schema[i];
        proof {
            assert(entry.0@ == rest[0].0);
            assert(entry.1@ == rest[0].1);
        }
        match get_value(config, entry.0.as_str()) {
            None => {
                return Err(ValidationError::MissingKey(entry.0.clone()));
            },
            Some(v) => {
                proof {
                    assert(spec_lookup(cfg, spec_split(rest[0].0, '.')) == Some(v@));
                }
                if str_eq(entry.1.as_str(), "bool") {
                    if !is_bool_literal(v.as_str()) {
                        return Err(ValidationError::InvalidBool(entry.0.clone()));
                    }
                    proof {
                        assert(rest[0].1 == "bool"@);
                        assert(is_bool_str(v@));
                        assert(rest[0].1 != "integer"@);
                    }
                } else if str_eq(entry.1.as_str(), "integer") {
                    if !is_i64_literal(v.as_str()) {
                        return Err(ValidationError::InvalidInteger(entry.0.clone()));
                    }
                    proof {
                        assert(rest[0].1 == "integer"@);
                        assert(is_i64_str(v@));
                    }
                } else {
                    proof {
                        assert(rest[0].1 != "bool"@);
                        assert(rest[0].1 != "integer"@);
                    }
                }
            },
        }
        proof {
            assert(rest.skip(1) =~= sv.skip(i + 1));
        }
        i = i + 1;
    }
    Ok(())
}

} // verus!
