//! Helper functions to deal with YAML objects: lookup by dotted path and typed conversion.

use crate::error::{Pipeline, Result};
use crate::value::{Float, Mapping, Sequence, Value};
use vstd::prelude::*;
use vstd::string::StringExecFns;

verus! {

/// The segments of a path, split at each `.`: a path with `k` dots has `k + 1` segments.
pub open spec fn split_dots(p: Seq<char>) -> Seq<Seq<char>>
    decreases p.len(),
{
    if p.len() == 0 {
        seq![Seq::<char>::empty()]
    } else {
        let rest = split_dots(p.drop_last());
        if p.last() == '.' {
            rest.push(Seq::<char>::empty())
        } else {
            rest.update(rest.len() - 1, rest.last().push(p.last()))
        }
    }
}

/// A path is well formed when none of its segments is empty.
pub open spec fn path_valid(p: Seq<char>) -> bool {
    nonempty_all(split_dots(p))
}

/// The value reached from `v` by taking the keys of `segs` in turn, each in a mapping.
pub open spec fn walk(v: Value, segs: Seq<Seq<char>>) -> Option<Value>
    decreases segs.len(),
{
    if segs.len() == 0 {
        Some(v)
    } else {
        match v {
            Value::Mapping(m) => match m.spec_get(segs[0]) {
                Some(c) => walk(c, segs.drop_first()),
                None => None,
            },
            _ => None,
        }
    }
}

/// The value at `path` within `root`, if the path is well formed and every segment resolves.
pub open spec fn resolve(root: Value, path: Seq<char>) -> Option<Value> {
    if path_valid(path) {
        walk(root, split_dots(path))
    } else {
        None
    }
}

/// The message of a failed lookup.
pub open spec fn not_found_text(path: Seq<char>) -> Seq<char> {
    "Path `"@ + path + "` was not found within the input object"@
}

/// The message of a failed conversion.
pub open spec fn mismatch_text(kind: Seq<char>) -> Seq<char> {
    "Could not parse requested value as "@ + kind
}

/// What `format!("Input object: {:?}", v)` renders of a value, prefix included.
pub uninterp spec fn debug_text(v: Value) -> Seq<char>;

/// Relies on `format!` with the `Debug` rendering of `Value`; the text depends on the value
/// alone.
#[verifier::external_body]
fn render_debug(value: &Value) -> (r: String)
    ensures
        r@ == debug_text(*value),
{
    format!("Input object: {:?}", value)
}

/// The message of a failed lookup of `path`.
fn not_found_message(path: &str) -> (r: String)
    ensures
        r@ == not_found_text(path@),
{
    let mut r = String::from_str("Path `");
    r.append(path);
    r.append("` was not found within the input object");
    r
}

/// The message of a failed conversion to the type named `kind`.
fn mismatch_message(kind: &str) -> (r: String)
    ensures
        r@ == mismatch_text(kind@),
{
    let mut r = String::from_str("Could not parse requested value as ");
    r.append(kind);
    r
}

/// Splits `path` at each `.`; `None` where a segment is empty.
fn path_segments<'p>(path: &'p str) -> (r: Option<Vec<&'p str>>)
    ensures
        match r {
            Some(segs) => path_valid(path@) && segs@.map_values(|s: &str| s@) == split_dots(
                path@,
            ),
            None => !path_valid(path@),
        },
{
    let n = path.unicode_len();
    let mut segs: Vec<&'p str> = Vec::new();
    let mut all_nonempty = true;
    let mut start: usize = 0;
    let mut i: usize = 0;
    assert(path@.subrange(0, 0) =~= Seq::<char>::empty());
    assert(segs@.map_values(|s: &str| s@).push(Seq::<char>::empty()) =~= seq![
        Seq::<char>::empty(),
    ]);
    while i < n
        invariant
            n == path@.len(),
            start <= i <= n,
            split_dots(path@.subrange(0, i as int)) == segs@.map_values(|s: &str| s@).push(
                path@.subrange(start as int, i as int),
            ),
            all_nonempty <==> nonempty_all(segs@.map_values(|s: &str| s@)),
        decreases n - i,
    {
        let c = path.get_char(i);
        let ghost prev = segs@.map_values(|s: &str| s@);
        let ghost q = path@.subrange(0, i + 1);
        assert(q.drop_last() =~= path@.subrange(0, i as int));
        assert(q.last() == c);
        if c == '.' {
            let seg = path.substring_char(start, i);
            if seg.unicode_len() == 0 {
                all_nonempty = false;
            }
            segs.push(seg);
            start = i + 1;
            assert(path@.subrange(start as int, (i + 1) as int) =~= Seq::<char>::empty());
            assert(segs@.map_values(|s: &str| s@) =~= prev.push(seg@));
            proof {
                lemma_nonempty_all_push(prev, seg@);
            }
        } else {
            assert(path@.subrange(start as int, (i + 1) as int) =~= path@.subrange(
                start as int,
                i as int,
            ).push(c));
            assert(prev.push(path@.subrange(start as int, i as int)).update(
                prev.len() as int,
                path@.subrange(start as int, (i + 1) as int),
            ) =~= prev.push(path@.subrange(start as int, (i + 1) as int)));
        }
        i = i + 1;
    }
    assert(path@.subrange(0, n as int) =~= path@);
    let last = path.substring_char(start, n);
    let last_nonempty = last.unicode_len() > 0;
    let ghost prev = segs@.map_values(|s: &str| s@);
    segs.push(last);
    assert(segs@.map_values(|s: &str| s@) =~= prev.push(last@));
    proof {
        lemma_nonempty_all_push(prev, last@);
    }
    if all_nonempty && last_nonempty {
        Some(segs)
    } else {
        None
    }
}

/// Every sequence in `s` is non-empty.
pub open spec fn nonempty_all(s: Seq<Seq<char>>) -> bool {
    forall|k: int| 0 <= k < s.len() ==> (#[trigger] s[k]).len() > 0
}

proof fn lemma_nonempty_all_push(s: Seq<Seq<char>>, e: Seq<char>)
    ensures
        nonempty_all(s.push(e)) <==> nonempty_all(s) && e.len() > 0,
{
    if nonempty_all(s) && e.len() > 0 {
        assert forall|k: int| 0 <= k < s.push(e).len() implies (#[trigger] s.push(e)[k]).len() > 0 by {
            if k < s.len() {
                assert(s.push(e)[k] == s[k]);
            }
        }
    }
    if nonempty_all(s.push(e)) {
        assert(s.push(e)[s.len() as int] == e);
        assert forall|k: int| 0 <= k < s.len() implies (#[trigger] s[k]).len() > 0 by {
            assert(s.push(e)[k] == s[k]);
        }
    }
}

/// Obtains a YAML value by a path.
///
/// The path is a list of keys separated by dots, e.g. `key.key2.key3`, each key a key of a
/// mapping: sequence indices are not supported. An empty path, or one with an empty key (a
/// leading, trailing or doubled dot), is not found.
pub fn get_value_by_path<'a>(value: &'a Value, path: &str) -> (r: Result<&'a Value>)
    ensures
        path_outcome(*value, path@, r),
{
    let found = match path_segments(path) {
        Some(segs) => walk_segments(value, &segs),
        None => None,
    };
    match found {
        Some(v) => Ok(v),
        None => {
            let message = not_found_message(path);
            let diagnostic = render_debug(value);
            Err(Pipeline::new_debug(message.as_str(), diagnostic.as_str()))
        },
    }
}

/// Follows the keys of `segs` from `root`, each in a mapping.
fn walk_segments<'a>(root: &'a Value, segs: &Vec<&str>) -> (r: Option<&'a Value>)
    ensures
        match r {
            Some(v) => walk(*root, segs@.map_values(|s: &str| s@)) == Some(*v),
            None => walk(*root, segs@.map_values(|s: &str| s@)) is None,
        },
{
    let ghost all = segs@.map_values(|s: &str| s@);
    let n = segs.len();
    let mut cur: &'a Value = root;
    let mut i: usize = 0;
    assert(all.subrange(0, n as int) =~= all);
    while i < n
        invariant
            n == segs@.len(),
            all == segs@.map_values(|s: &str| s@),
            i <= n,
            walk(*root, all) == walk(*cur, all.subrange(i as int, n as int)),
        decreases n - i,
    {
        let ghost rest = all.subrange(i as int, n as int);
        assert(rest.drop_first() =~= all.subrange(i + 1, n as int));
        assert(rest[0] == segs@[i as int]@);
        match cur {
            Value::Mapping(m) => match m.get(segs[i]) {
                Some(c) => {
                    cur = c;
                },
                None => {
                    return None;
                },
            },
            _ => {
                return None;
            },
        }
        i = i + 1;
    }
    assert(all.subrange(n as int, n as int).len() == 0);
    Some(cur)
}

/// Conversion of a YAML value into one of its constituents.
pub trait FromYaml<'a> {
    /// What the conversion returns.
    type Output;

    /// The values that convert.
    spec fn accepts(value: Value) -> bool;

    /// `out` is what `value` converts to.
    spec fn converts(value: Value, out: Self::Output) -> bool;

    /// The name of the requested type, for diagnostics.
    spec fn kind() -> Seq<char>;

    /// `a` and `b` are the same output: equal values, and for text, the same characters.
    spec fn same_output(a: Self::Output, b: Self::Output) -> bool;

    /// A value converts to one output only.
    proof fn lemma_converts_unique(value: Value, a: Self::Output, b: Self::Output)
        requires
            Self::converts(value, a),
            Self::converts(value, b),
        ensures
            Self::same_output(a, b),
    ;

    /// Parses a YAML value: `None` where the value's variant does not match.
    fn parse(value: &'a Value) -> (r: Option<Self::Output>)
        ensures
            match r {
                Some(o) => Self::accepts(*value) && Self::converts(*value, o),
                None => !Self::accepts(*value),
            },
    ;

    /// The name of the requested type, for diagnostics.
    fn type_str() -> (r: &'static str)
        ensures
            r@ == Self::kind(),
    ;

    /// Converts a YAML value into the requested type.
    ///
    /// # Errors
    /// The function returns an error if the value cannot be represented as the requested type.
    fn try_from(value: &'a Value) -> (r: Result<Self::Output>)
        ensures
            match r {
                Ok(o) => Self::accepts(*value) && Self::converts(*value, o),
                Err(e) => !Self::accepts(*value) && e.message() == mismatch_text(Self::kind())
                    && e.diagnostic() == Some(debug_text(*value)),
            },
    {
        match Self::parse(value) {
            Some(cv) => Ok(cv),
            None => {
                let message = mismatch_message(Self::type_str());
                let diagnostic = render_debug(value);
                Err(Pipeline::new_debug(message.as_str(), diagnostic.as_str()))
            },
        }
    }
}

impl<'a> FromYaml<'a> for str {
    type Output = &'a str;

    open spec fn accepts(value: Value) -> bool {
        value is String
    }

    open spec fn converts(value: Value, out: &'a str) -> bool {
        value matches Value::String(s) && s@ == out@
    }

    open spec fn kind() -> Seq<char> {
        "str"@
    }

    open spec fn same_output(a: &'a str, b: &'a str) -> bool {
        a@ == b@
    }

    proof fn lemma_converts_unique(value: Value, a: &'a str, b: &'a str) {
    }

    fn parse(value: &'a Value) -> (r: Option<&'a str>) {
        match value {
            Value::String(s) => Some(s.as_str()),
            _ => None,
        }
    }

    fn type_str() -> (r: &'static str) {
        "str"
    }
}

impl<'a> FromYaml<'a> for Mapping {
    type Output = &'a Mapping;

    open spec fn accepts(value: Value) -> bool {
        value is Mapping
    }

    open spec fn converts(value: Value, out: &'a Mapping) -> bool {
        value == Value::Mapping(*out)
    }

    open spec fn kind() -> Seq<char> {
        "Mapping"@
    }

    open spec fn same_output(a: &'a Mapping, b: &'a Mapping) -> bool {
        a == b
    }

    proof fn lemma_converts_unique(value: Value, a: &'a Mapping, b: &'a Mapping) {
    }

    fn parse(value: &'a Value) -> (r: Option<&'a Mapping>) {
        match value {
            Value::Mapping(m) => Some(m),
            _ => None,
        }
    }

    fn type_str() -> (r: &'static str) {
        "Mapping"
    }
}

impl<'a> FromYaml<'a> for Sequence {
    type Output = &'a Sequence;

    open spec fn accepts(value: Value) -> bool {
        value is Sequence
    }

    open spec fn converts(value: Value, out: &'a Sequence) -> bool {
        value == Value::Sequence(*out)
    }

    open spec fn kind() -> Seq<char> {
        "Sequence"@
    }

    open spec fn same_output(a: &'a Sequence, b: &'a Sequence) -> bool {
        a == b
    }

    proof fn lemma_converts_unique(value: Value, a: &'a Sequence, b: &'a Sequence) {
    }

    fn parse(value: &'a Value) -> (r: Option<&'a Sequence>) {
        match value {
            Value::Sequence(v) => Some(v),
            _ => None,
        }
    }

    fn type_str() -> (r: &'static str) {
        "Sequence"
    }
}

impl<'a> FromYaml<'a> for bool {
    type Output = bool;

    open spec fn accepts(value: Value) -> bool {
        value is Bool
    }

    open spec fn converts(value: Value, out: bool) -> bool {
        value == Value::Bool(out)
    }

    open spec fn kind() -> Seq<char> {
        "$bool"@
    }

    open spec fn same_output(a: bool, b: bool) -> bool {
        a == b
    }

    proof fn lemma_converts_unique(value: Value, a: bool, b: bool) {
    }

    fn parse(value: &'a Value) -> (r: Option<bool>) {
        match value {
            Value::Bool(b) => Some(*b),
            _ => None,
        }
    }

    fn type_str() -> (r: &'static str) {
        "$bool"
    }
}

/// A signed integer is read from either integer variant, where its value fits.
impl<'a> FromYaml<'a> for i64 {
    type Output = i64;

    open spec fn accepts(value: Value) -> bool {
        match value {
            Value::Integer(_) => true,
            Value::Unsigned(n) => n <= i64::MAX,
            _ => false,
        }
    }

    open spec fn converts(value: Value, out: i64) -> bool {
        match value {
            Value::Integer(n) => out == n,
            Value::Unsigned(n) => out as int == n as int,
            _ => false,
        }
    }

    open spec fn kind() -> Seq<char> {
        "$i64"@
    }

    open spec fn same_output(a: i64, b: i64) -> bool {
        a == b
    }

    proof fn lemma_converts_unique(value: Value, a: i64, b: i64) {
    }

    fn parse(value: &'a Value) -> (r: Option<i64>) {
        match value {
            Value::Integer(n) => Some(*n),
            Value::Unsigned(n) => if *n <= i64::MAX as u64 {
                Some(*n as i64)
            } else {
                None
            },
            _ => None,
        }
    }

    fn type_str() -> (r: &'static str) {
        "$i64"
    }
}

/// An unsigned integer is read from either integer variant, where its value is not negative.
impl<'a> FromYaml<'a> for u64 {
    type Output = u64;

    open spec fn accepts(value: Value) -> bool {
        match value {
            Value::Integer(n) => n >= 0,
            Value::Unsigned(_) => true,
            _ => false,
        }
    }

    open spec fn converts(value: Value, out: u64) -> bool {
        match value {
            Value::Integer(n) => out as int == n as int,
            Value::Unsigned(n) => out == n,
            _ => false,
        }
    }

    open spec fn kind() -> Seq<char> {
        "$u64"@
    }

    open spec fn same_output(a: u64, b: u64) -> bool {
        a == b
    }

    proof fn lemma_converts_unique(value: Value, a: u64, b: u64) {
    }

    fn parse(value: &'a Value) -> (r: Option<u64>) {
        match value {
            Value::Integer(n) => if *n >= 0 {
                Some(*n as u64)
            } else {
                None
            },
            Value::Unsigned(n) => Some(*n),
            _ => None,
        }
    }

    fn type_str() -> (r: &'static str) {
        "$u64"
    }
}

/// A floating-point scalar is read from the float variant alone.
impl<'a> FromYaml<'a> for Float {
    type Output = Float;

    open spec fn accepts(value: Value) -> bool {
        value is Float
    }

    open spec fn converts(value: Value, out: Float) -> bool {
        value == Value::Float(out)
    }

    open spec fn kind() -> Seq<char> {
        "$f64"@
    }

    open spec fn same_output(a: Float, b: Float) -> bool {
        a == b
    }

    proof fn lemma_converts_unique(value: Value, a: Float, b: Float) {
    }

    fn parse(value: &'a Value) -> (r: Option<Float>) {
        match value {
            Value::Float(x) => Some(*x),
            _ => None,
        }
    }

    fn type_str() -> (r: &'static str) {
        "$f64"
    }
}

/// The outcome that `get_typed_value_by_path` promises for `root`, `path` and the type `T`:
/// the conversion of the value at the path; else, where the path is not found, the lookup's
/// error; else the conversion's error.
pub open spec fn typed_outcome<'a, T: ?Sized + FromYaml<'a>>(
    root: Value,
    path: Seq<char>,
    r: Result<T::Output>,
) -> bool {
    match r {
        Ok(o) => resolve(root, path) matches Some(v) && T::accepts(v) && T::converts(v, o),
        Err(e) => match resolve(root, path) {
            None => e.message() == not_found_text(path) && e.diagnostic() == Some(debug_text(root)),
            Some(v) => !T::accepts(v) && e.message() == mismatch_text(T::kind()) && e.diagnostic()
                == Some(debug_text(v)),
        },
    }
}

/// Obtains a YAML value at a path, converted to the type `T`.
///
/// # Errors
/// The function returns an error where the path is not found within the input object, and
/// where the value found cannot be converted to `T`.
pub fn get_typed_value_by_path<'a, T>(value: &'a Value, path: &str) -> (r: Result<T::Output>)
    where
        T: ?Sized + FromYaml<'a>,
    ensures
        typed_outcome::<T>(*value, path@, r),
{
    let v = match get_value_by_path(value, path) {
        Ok(v) => v,
        Err(e) => {
            return Err(e);
        },
    };
    T::try_from(v)
}

/// The path made of `segs` joined by dots.
pub open spec fn join_dots(segs: Seq<Seq<char>>) -> Seq<char>
    decreases segs.len(),
{
    if segs.len() == 0 {
        Seq::<char>::empty()
    } else if segs.len() == 1 {
        segs[0]
    } else {
        join_dots(segs.drop_last()) + seq!['.'] + segs.last()
    }
}

/// A path segment: non-empty, without a dot.
pub open spec fn is_key(s: Seq<char>) -> bool {
    s.len() > 0 && !s.contains('.')
}

proof fn lemma_split_append_key(p: Seq<char>, s: Seq<char>)
    requires
        !s.contains('.'),
    ensures
        split_dots(p + s) == split_dots(p).update(
            split_dots(p).len() - 1,
            split_dots(p).last() + s,
        ),
        split_dots(p).len() >= 1,
    decreases s.len(),
{
    lemma_split_nonempty(p);
    if s.len() == 0 {
        assert(p + s =~= p);
        assert(split_dots(p).last() + s =~= split_dots(p).last());
        assert(split_dots(p).update(split_dots(p).len() - 1, split_dots(p).last())
            =~= split_dots(p));
    } else {
        let s0 = s.drop_last();
        assert(!s0.contains('.')) by {
            assert forall|k: int| 0 <= k < s0.len() implies s0[k] != '.' by {
                assert(s0[k] == s[k]);
            }
        }
        assert(s.contains(s.last()));
        lemma_split_append_key(p, s0);
        assert((p + s).drop_last() =~= p + s0);
        assert((p + s).last() == s.last());
        assert((split_dots(p).last() + s0).push(s.last()) =~= split_dots(p).last() + s);
        let sp = split_dots(p);
        assert(sp.update(sp.len() - 1, sp.last() + s0).update(
            sp.len() - 1,
            (sp.last() + s0).push(s.last()),
        ) =~= sp.update(sp.len() - 1, sp.last() + s));
    }
}

proof fn lemma_split_nonempty(p: Seq<char>)
    ensures
        split_dots(p).len() >= 1,
    decreases p.len(),
{
    if p.len() > 0 {
        lemma_split_nonempty(p.drop_last());
    }
}

/// Splitting the path made by joining keys gives back the keys.
pub proof fn lemma_split_join(segs: Seq<Seq<char>>)
    requires
        segs.len() > 0,
        forall|k: int| 0 <= k < segs.len() ==> is_key(#[trigger] segs[k]),
    ensures
        split_dots(join_dots(segs)) == segs,
    decreases segs.len(),
{
    if segs.len() == 1 {
        let e = Seq::<char>::empty();
        assert(is_key(segs[0]));
        lemma_split_append_key(e, segs[0]);
        assert(e + segs[0] =~= segs[0]);
        assert(split_dots(e) == seq![e]);
        assert(seq![e].update(0, e + segs[0]) =~= segs);
    } else {
        let init = segs.drop_last();
        assert forall|k: int| 0 <= k < init.len() implies is_key(#[trigger] init[k]) by {
            assert(init[k] == segs[k]);
        }
        lemma_split_join(init);
        let q = join_dots(init) + seq!['.'];
        assert(q =~= join_dots(init).push('.'));
        assert(q.drop_last() =~= join_dots(init));
        assert(split_dots(q) == init.push(Seq::<char>::empty()));
        assert(is_key(segs[segs.len() - 1]));
        lemma_split_append_key(q, segs.last());
        assert(Seq::<char>::empty() + segs.last() =~= segs.last());
        assert(init.push(Seq::<char>::empty()).update(init.len() as int, segs.last()) =~= segs);
    }
}

/// A path made of keys joined by dots, each key found in a mapping on the way, resolves to the
/// value at its end.
pub proof fn lemma_resolve_joined(root: Value, segs: Seq<Seq<char>>, end: Value)
    requires
        segs.len() > 0,
        forall|k: int| 0 <= k < segs.len() ==> is_key(#[trigger] segs[k]),
        walk(root, segs) == Some(end),
    ensures
        resolve(root, join_dots(segs)) == Some(end),
{
    lemma_split_join(segs);
    assert forall|k: int| 0 <= k < segs.len() implies (#[trigger] segs[k]).len() > 0 by {
        assert(is_key(segs[k]));
    }
}

proof fn lemma_split_prefix(p: Seq<char>, k: int, j: int)
    requires
        0 <= k <= j <= p.len(),
    ensures
        split_dots(p.subrange(0, j)).len() >= split_dots(p.subrange(0, k)).len(),
        forall|idx: int|
            0 <= idx < split_dots(p.subrange(0, k)).len() - 1 ==> #[trigger] split_dots(
                p.subrange(0, j),
            )[idx] == split_dots(p.subrange(0, k))[idx],
    decreases j - k,
{
    if j > k {
        lemma_split_prefix(p, k, j - 1);
        let q = p.subrange(0, j);
        assert(q.drop_last() =~= p.subrange(0, j - 1));
        lemma_split_nonempty(p.subrange(0, j - 1));
    }
}

/// A path that is empty, or has a leading, trailing or doubled dot, resolves to nothing.
pub proof fn lemma_malformed_path_fails(root: Value, path: Seq<char>)
    requires
        path.len() == 0 || path[0] == '.' || path.last() == '.' || exists|i: int|
            0 <= i < path.len() - 1 && #[trigger] path[i] == '.' && path[i + 1] == '.',
    ensures
        resolve(root, path) is None,
{
    let sp = split_dots(path);
    assert(path.subrange(0, path.len() as int) =~= path);
    if path.len() == 0 {
        assert(sp[0].len() == 0);
    } else if path.last() == '.' {
        assert(sp[sp.len() - 1].len() == 0);
    } else if path[0] == '.' {
        let one = path.subrange(0, 1);
        assert(one.drop_last() =~= Seq::<char>::empty());
        assert(one.last() == '.');
        assert(split_dots(Seq::<char>::empty()) == seq![Seq::<char>::empty()]);
        assert(split_dots(one) == seq![Seq::<char>::empty()].push(Seq::<char>::empty()));
        lemma_split_prefix(path, 1, path.len() as int);
        assert(sp[0] == split_dots(one)[0]);
    } else {
        let i = choose|i: int| 0 <= i < path.len() - 1 && #[trigger] path[i] == '.' && path[i + 1] == '.';
        let a = path.subrange(0, i + 1);
        let b = path.subrange(0, i + 2);
        assert(a.drop_last() =~= path.subrange(0, i));
        assert(b.drop_last() =~= a);
        let sa = split_dots(a);
        assert(sa == split_dots(path.subrange(0, i)).push(Seq::<char>::empty()));
        assert(split_dots(b) == sa.push(Seq::<char>::empty()));
        lemma_split_prefix(path, i + 2, path.len() as int);
        assert(split_dots(b)[sa.len() - 1].len() == 0);
        assert(sp[sa.len() - 1] == split_dots(b)[sa.len() - 1]);
    }
}

proof fn lemma_walk_append(v: Value, a: Seq<Seq<char>>, b: Seq<Seq<char>>)
    ensures
        walk(v, a + b) == match walk(v, a) {
            Some(w) => walk(w, b),
            None => None,
        },
    decreases a.len(),
{
    if a.len() == 0 {
        assert(a + b =~= b);
    } else {
        assert((a + b).drop_first() =~= a.drop_first() + b);
        assert((a + b)[0] == a[0]);
        match v {
            Value::Mapping(m) => match m.spec_get(a[0]) {
                Some(c) => {
                    lemma_walk_append(c, a.drop_first(), b);
                },
                None => {},
            },
            _ => {},
        }
    }
}

/// A path whose first `i` segments lead to a sequence, with more segments after them, resolves
/// to nothing: segments never index into a sequence.
pub proof fn lemma_sequence_stops_path(root: Value, path: Seq<char>, i: int, items: Seq<Value>)
    requires
        0 <= i < split_dots(path).len(),
        walk(root, split_dots(path).take(i)) matches Some(Value::Sequence(s)) && s@ == items,
    ensures
        resolve(root, path) is None,
{
    let sp = split_dots(path);
    assert(sp =~= sp.take(i) + sp.skip(i));
    lemma_walk_append(root, sp.take(i), sp.skip(i));
}

/// The outcome that `get_value_by_path` promises for `root` and `path`.
pub open spec fn path_outcome(root: Value, path: Seq<char>, r: Result<&Value>) -> bool {
    match r {
        Ok(v) => resolve(root, path) == Some(*v),
        Err(e) => resolve(root, path) is None && e.message() == not_found_text(path)
            && e.diagnostic() == Some(debug_text(root)),
    }
}

/// Two lookups of one path in one value have the same outcome: the same value, or errors with
/// the same message and diagnostic.
pub proof fn lemma_path_outcome_unique(
    root: Value,
    path: Seq<char>,
    r1: Result<&Value>,
    r2: Result<&Value>,
)
    requires
        path_outcome(root, path, r1),
        path_outcome(root, path, r2),
    ensures
        match (r1, r2) {
            (Ok(a), Ok(b)) => *a == *b,
            (Err(a), Err(b)) => a.message() == b.message() && a.diagnostic() == b.diagnostic(),
            _ => false,
        },
{
}

/// Two typed lookups of one path in one value have the same outcome: both succeed with the
/// same output, or both fail with the same message and diagnostic.
pub proof fn lemma_typed_outcome_unique<'a, T: ?Sized + FromYaml<'a>>(
    root: Value,
    path: Seq<char>,
    r1: Result<T::Output>,
    r2: Result<T::Output>,
)
    requires
        typed_outcome::<T>(root, path, r1),
        typed_outcome::<T>(root, path, r2),
    ensures
        match (r1, r2) {
            (Ok(a), Ok(b)) => T::same_output(a, b),
            (Err(a), Err(b)) => a.message() == b.message() && a.diagnostic() == b.diagnostic(),
            _ => false,
        },
{
    if let (Ok(a), Ok(b)) = (r1, r2) {
        let v = resolve(root, path)->Some_0;
        T::lemma_converts_unique(v, a, b);
    }
}

} // verus!
