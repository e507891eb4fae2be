//! Mathematical model of template normalization.
//!
//! The scan is a two-level state machine driven one character at a time:
//! outside a placeholder the scanner is in `Literal` mode (with a one
//! character lookahead state, `AfterOpen`, to recognize the `{{` escape),
//! inside a placeholder it reads the raw identifier (`Ident`) and then,
//! after a `:`, the opaque specifier (`Spec`). `scan_step` gives the
//! transition for one character, `scan_from` folds it over the input, and
//! `normalize` is the whole transformation.

use vstd::prelude::*;

verus! {

/// Scanner mode: `Literal` outside placeholders, `AfterOpen` right after
/// a `{` whose role (escape or placeholder) is not yet decided, `Ident`
/// while reading a placeholder's raw identifier, `Spec` while reading its
/// specifier.
pub enum Mode {
    Literal,
    AfterOpen,
    Ident,
    Spec,
}

/// The full scanner state: the mode, the two in-progress buffers, the
/// next automatic positional index, and the two outputs accumulated so
/// far (rewritten text, identifiers in first-appearance order).
pub struct ScanState {
    pub mode: Mode,
    pub ident: Seq<char>,
    pub spec_text: Seq<char>,
    pub next: int,
    pub out: Seq<char>,
    pub fields: Seq<Seq<char>>,
}

/// The result of normalizing a template: the rewritten text and the
/// distinct canonical identifiers, each listed once, in the order of
/// their first appearance.
pub struct Normalized {
    pub text: Seq<char>,
    pub fields: Seq<Seq<char>>,
}

pub open spec fn is_digit(c: char) -> bool {
    c == '0' || c == '1' || c == '2' || c == '3' || c == '4' || c == '5' || c == '6' || c == '7'
        || c == '8' || c == '9'
}

pub open spec fn digit_val(c: char) -> int {
    if c == '0' {
        0
    } else if c == '1' {
        1
    } else if c == '2' {
        2
    } else if c == '3' {
        3
    } else if c == '4' {
        4
    } else if c == '5' {
        5
    } else if c == '6' {
        6
    } else if c == '7' {
        7
    } else if c == '8' {
        8
    } else {
        9
    }
}

pub open spec fn digit_char(d: int) -> char {
    if d == 0 {
        '0'
    } else if d == 1 {
        '1'
    } else if d == 2 {
        '2'
    } else if d == 3 {
        '3'
    } else if d == 4 {
        '4'
    } else if d == 5 {
        '5'
    } else if d == 6 {
        '6'
    } else if d == 7 {
        '7'
    } else if d == 8 {
        '8'
    } else {
        '9'
    }
}

pub open spec fn all_digits(s: Seq<char>) -> bool {
    forall|i: int| 0 <= i < s.len() ==> is_digit(s[i])
}

/// The value of a sequence of decimal digits, most significant first.
pub open spec fn digits_val(s: Seq<char>) -> int
    decreases s.len(),
{
    if s.len() == 0 {
        0
    } else {
        digits_val(s.drop_last()) * 10 + digit_val(s.last())
    }
}

/// The decimal rendering of a non-negative integer, without sign and
/// without redundant leading zeros.
pub open spec fn dec_digits(n: int) -> Seq<char>
    recommends
        n >= 0,
    decreases n,
{
    if n < 10 {
        seq![digit_char(n)]
    } else {
        dec_digits(n / 10).push(digit_char(n % 10))
    }
}

/// A raw identifier counts as an explicit positional reference when it is
/// non-empty, consists of decimal digits only, and its value fits the
/// 8-bit width this library fixes for positional indices. Wider digit
/// strings are kept as ordinary names, so no two distinct raw
/// identifiers can collapse onto one canonical identifier by wrapping.
pub open spec fn is_positional(s: Seq<char>) -> bool {
    s.len() > 0 && all_digits(s) && digits_val(s) <= 255
}

/// The two-underscore prefix that marks canonical positional identifiers.
pub open spec fn canon_prefix() -> Seq<char> {
    seq!['_', '_']
}

/// The canonical identifier of a placeholder whose raw identifier is
/// `raw`, when the next automatic positional index is `next`:
/// an empty identifier takes the automatic index, an explicit positional
/// reference keeps its own digits behind the prefix, and a name stays
/// as written.
pub open spec fn canon_ident(raw: Seq<char>, next: int) -> Seq<char> {
    if raw.len() == 0 {
        canon_prefix() + dec_digits(next)
    } else if is_positional(raw) {
        canon_prefix() + raw
    } else {
        raw
    }
}

/// The automatic positional counter advances exactly when the raw
/// identifier was empty; explicit references never perturb it.
pub open spec fn next_after(raw: Seq<char>, next: int) -> int {
    if raw.len() == 0 {
        next + 1
    } else {
        next
    }
}

/// The text emitted for one placeholder: the canonical identifier in
/// braces, with the specifier re-attached behind a `:` only when it is
/// non-empty (a bare `:` with nothing after it is dropped).
pub open spec fn placeholder_text(id: Seq<char>, spec_text: Seq<char>) -> Seq<char> {
    if spec_text.len() > 0 {
        seq!['{'] + id + seq![':'] + spec_text + seq!['}']
    } else {
        seq!['{'] + id + seq!['}']
    }
}

/// Append an identifier to the collected fields unless it is already
/// present: per-occurrence rewriting, per-distinct-identifier collection.
pub open spec fn push_unique(fields: Seq<Seq<char>>, id: Seq<char>) -> Seq<Seq<char>> {
    if fields.contains(id) {
        fields
    } else {
        fields.push(id)
    }
}

/// Close the placeholder being read in `st`: emit its rewritten text,
/// record its canonical identifier, advance the counter if the
/// identifier was automatic, and return to `Literal` mode with cleared
/// buffers.
pub open spec fn close_placeholder(st: ScanState) -> ScanState {
    let id = canon_ident(st.ident, st.next);
    ScanState {
        mode: Mode::Literal,
        ident: Seq::empty(),
        spec_text: Seq::empty(),
        next: next_after(st.ident, st.next),
        out: st.out + placeholder_text(id, st.spec_text),
        fields: push_unique(st.fields, id),
    }
}

/// One transition of the scanner.
pub open spec fn scan_step(st: ScanState, c: char) -> ScanState {
    match st.mode {
        Mode::Literal => if c == '{' {
            ScanState { mode: Mode::AfterOpen, ..st }
        } else {
            ScanState { out: st.out.push(c), ..st }
        },
        Mode::AfterOpen => if c == '{' {
            ScanState { mode: Mode::Literal, out: st.out + seq!['{', '{'], ..st }
        } else if c == '}' {
            close_placeholder(st)
        } else if c == ':' {
            ScanState { mode: Mode::Spec, ..st }
        } else {
            ScanState { mode: Mode::Ident, ident: st.ident.push(c), ..st }
        },
        Mode::Ident => if c == '}' {
            close_placeholder(st)
        } else if c == ':' {
            ScanState { mode: Mode::Spec, ..st }
        } else {
            ScanState { ident: st.ident.push(c), ..st }
        },
        Mode::Spec => if c == '}' {
            close_placeholder(st)
        } else {
            ScanState { spec_text: st.spec_text.push(c), ..st }
        },
    }
}

/// Fold `scan_step` over the remaining input.
pub open spec fn scan_from(s: Seq<char>, st: ScanState) -> ScanState
    decreases s.len(),
{
    if s.len() == 0 {
        st
    } else {
        scan_from(s.drop_first(), scan_step(st, s.first()))
    }
}

/// The scanner's starting state: `Literal` mode, empty buffers and
/// outputs, first automatic index 0.
pub open spec fn init_state() -> ScanState {
    ScanState {
        mode: Mode::Literal,
        ident: Seq::empty(),
        spec_text: Seq::empty(),
        next: 0,
        out: Seq::empty(),
        fields: Seq::empty(),
    }
}

/// Normalize a whole template. Input that ends inside an unterminated
/// placeholder is truncated: the dangling fragment contributes nothing
/// to either output (the scanner's in-progress buffers are discarded).
pub open spec fn normalize(s: Seq<char>) -> Normalized {
    let fin = scan_from(s, init_state());
    Normalized { text: fin.out, fields: fin.fields }
}

/// Appending a digit multiplies the value by ten and adds the digit.
pub proof fn lemma_digits_val_snoc(s: Seq<char>, c: char)
    ensures
        digits_val(s.push(c)) == digits_val(s) * 10 + digit_val(c),
{
    assert(s.push(c).drop_last() =~= s);
    assert(s.push(c).last() == c);
}

/// The value of a digit string is never negative.
pub proof fn lemma_digits_val_nonneg(s: Seq<char>)
    requires
        all_digits(s),
    ensures
        digits_val(s) >= 0,
    decreases s.len(),
{
    if s.len() > 0 {
        assert(forall|i: int| 0 <= i < s.drop_last().len() ==> is_digit(s.drop_last()[i]));
        lemma_digits_val_nonneg(s.drop_last());
        assert(digit_val(s.last()) >= 0);
    }
}

/// A prefix of a digit string never has a larger value than the whole.
pub proof fn lemma_digits_val_prefix_le(s: Seq<char>, k: int)
    requires
        all_digits(s),
        0 <= k <= s.len(),
    ensures
        digits_val(s.take(k)) <= digits_val(s),
    decreases s.len(),
{
    if k == s.len() {
        assert(s.take(k) =~= s);
    } else {
        let t = s.drop_last();
        assert(forall|i: int| 0 <= i < t.len() ==> is_digit(t[i]));
        assert(t.take(k) =~= s.take(k));
        lemma_digits_val_prefix_le(t, k);
        lemma_digits_val_nonneg(t);
        assert(digit_val(s.last()) >= 0);
    }
}

/// The decimal rendering of a non-negative integer is a non-empty digit
/// string whose value is that integer.
pub proof fn lemma_dec_digits_props(n: int)
    requires
        n >= 0,
    ensures
        dec_digits(n).len() >= 1,
        all_digits(dec_digits(n)),
        digits_val(dec_digits(n)) == n,
    decreases n,
{
    if n < 10 {
        assert(is_digit(digit_char(n)));
        assert(digit_val(digit_char(n)) == n);
        let w = seq![digit_char(n)];
        assert(w.drop_last() =~= Seq::<char>::empty());
        assert(w.last() == digit_char(n));
        assert(digits_val(Seq::<char>::empty()) == 0);
        assert(digits_val(w) == n);
    } else {
        lemma_dec_digits_props(n / 10);
        let d = dec_digits(n / 10);
        let w = d.push(digit_char(n % 10));
        lemma_digits_val_snoc(d, digit_char(n % 10));
        assert(digit_val(digit_char(n % 10)) == n % 10);
        assert forall|i: int| 0 <= i < w.len() implies is_digit(w[i]) by {
            if i < d.len() {
                assert(w[i] == d[i]);
            } else {
                assert(w[i] == digit_char(n % 10));
            }
        }
    }
}

/// Advancing the fold by one character from position `i`.
pub proof fn lemma_scan_from_step(s: Seq<char>, st: ScanState, i: int)
    requires
        0 <= i < s.len(),
    ensures
        scan_from(s.skip(i), st) == scan_from(s.skip(i + 1), scan_step(st, s[i])),
{
    assert(s.skip(i).first() == s[i]);
    assert(s.skip(i).drop_first() =~= s.skip(i + 1));
}

} // verus!
