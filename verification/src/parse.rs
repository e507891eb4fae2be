//! The executable template normalizer.
//!
//! `parse_internal` scans the template once, left to right, mirroring the
//! state machine of the model one character at a time, and returns the
//! rewritten text together with the distinct canonical identifiers in
//! first-appearance order.

use vstd::prelude::*;
use vstd::string::StrSliceExecFns;

use crate::model::all_digits;
use crate::model::canon_ident;
use crate::model::canon_prefix;
use crate::model::close_placeholder;
use crate::model::dec_digits;
use crate::model::digit_char;
use crate::model::digit_val;
use crate::model::digits_val;
use crate::model::init_state;
use crate::model::is_digit;
use crate::model::is_positional;
use crate::model::lemma_digits_val_prefix_le;
use crate::model::lemma_digits_val_snoc;
use crate::model::lemma_scan_from_step;
use crate::model::normalize;
use crate::model::placeholder_text;
use crate::model::push_unique;
use crate::model::scan_from;
use crate::model::scan_step;
use crate::model::Mode;
use crate::model::ScanState;

verus! {

/// syn's `Variant` type, carried opaquely: the normalizer stores a
/// reference to it for the downstream code generator and never reads it.
#[verifier::external_type_specification]
#[verifier::external_body]
pub struct ExVariant(syn::Variant);

/// Relies on String::push: appends the given character to the end of the
/// string.
#[verifier::external_body]
fn push_char(s: &mut String, c: char)
    ensures
        final(s)@ == old(s)@.push(c),
{
    s.push(c);
}

/// The views of a sequence of character buffers.
pub open spec fn views_of(vs: Seq<Vec<char>>) -> Seq<Seq<char>> {
    vs.map_values(|v: Vec<char>| v@)
}

/// The views of a sequence of strings.
pub open spec fn str_views(vs: Seq<String>) -> Seq<Seq<char>> {
    vs.map_values(|s: String| s@)
}

/// Executable rendering of one decimal digit.
fn digit_char_exec(d: usize) -> (c: char)
    requires
        d < 10,
    ensures
        c == digit_char(d as int),
{
    if d == 0 {
        '0'
    } else if d == 1 {
        '1'
    } else if d == 2 {
        '2'
    } else if d == 3 {
        '3'
    } else if d == 4 {
        '4'
    } else if d == 5 {
        '5'
    } else if d == 6 {
        '6'
    } else if d == 7 {
        '7'
    } else if d == 8 {
        '8'
    } else {
        '9'
    }
}

/// Executable classification of one decimal digit, with its value.
fn digit_val_exec(c: char) -> (r: Option<usize>)
    ensures
        r is Some <==> is_digit(c),
        r is Some ==> r->Some_0 == digit_val(c) && r->Some_0 < 10,
{
    if c == '0' {
        Some(0)
    } else if c == '1' {
        Some(1)
    } else if c == '2' {
        Some(2)
    } else if c == '3' {
        Some(3)
    } else if c == '4' {
        Some(4)
    } else if c == '5' {
        Some(5)
    } else if c == '6' {
        Some(6)
    } else if c == '7' {
        Some(7)
    } else if c == '8' {
        Some(8)
    } else if c == '9' {
        Some(9)
    } else {
        None
    }
}

/// The decimal rendering of `n`, most significant digit first.
fn render_dec(n: usize) -> (v: Vec<char>)
    ensures
        v@ == dec_digits(n as int),
    decreases n,
{
    if n < 10 {
        let mut v: Vec<char> = Vec::new();
        v.push(digit_char_exec(n));
        proof {
            assert(v@ =~= seq![digit_char(n as int)]);
        }
        v
    } else {
        let mut v = render_dec(n / 10);
        v.push(digit_char_exec(n % 10));
        v
    }
}

/// Whether `raw` is an explicit positional reference: all decimal digits
/// with a value in the 8-bit range.
fn is_positional_ref(raw: &Vec<char>) -> (r: bool)
    ensures
        r == is_positional(raw@),
{
    if raw.len() == 0 {
        return false;
    }
    let mut i: usize = 0;
    let mut v: usize = 0;
    while i < raw.len()
        invariant
            i <= raw.len(),
            raw@.len() > 0,
            all_digits(raw@.take(i as int)),
            v == digits_val(raw@.take(i as int)),
            v <= 255,
        decreases raw.len() - i,
    {
        let c = raw[i];
        proof {
            assert(raw@.take(i as int).push(c) =~= raw@.take(i as int + 1));
            lemma_digits_val_snoc(raw@.take(i as int), c);
        }
        match digit_val_exec(c) {
            None => {
                assert(!is_digit(raw@[i as int]));
                return false;
            },
            Some(d) => {
                let w = v * 10 + d;
                if w > 255 {
                    proof {
                        if all_digits(raw@) {
                            lemma_digits_val_prefix_le(raw@, i as int + 1);
                        }
                    }
                    return false;
                }
                v = w;
            },
        }
        i += 1;
    }
    proof {
        assert(raw@.take(raw@.len() as int) =~= raw@);
    }
    true
}

/// Append the characters of `src` to `dst`.
fn append_chars(dst: &mut Vec<char>, src: &Vec<char>)
    ensures
        final(dst)@ == old(dst)@ + src@,
{
    let mut i: usize = 0;
    proof {
        assert(dst@ =~= old(dst)@ + src@.take(0));
    }
    while i < src.len()
        invariant
            i <= src.len(),
            dst@ == old(dst)@ + src@.take(i as int),
        decreases src.len() - i,
    {
        dst.push(src[i]);
        proof {
            assert(old(dst)@ + src@.take(i as int + 1) =~= (old(dst)@ + src@.take(
                i as int,
            )).push(src@[i as int]));
        }
        i += 1;
    }
    proof {
        assert(src@.take(src@.len() as int) =~= src@);
    }
}

/// Character-for-character equality of two buffers.
fn chars_eq(a: &Vec<char>, b: &Vec<char>) -> (r: bool)
    ensures
        r == (a@ == b@),
{
    if a.len() != b.len() {
        return false;
    }
    let mut i: usize = 0;
    while i < a.len()
        invariant
            i <= a.len(),
            a@.len() == b@.len(),
            forall|k: int| 0 <= k < i ==> a@[k] == b@[k],
        decreases a.len() - i,
    {
        if a[i] != b[i] {
            return false;
        }
        i += 1;
    }
    proof {
        assert(a@ =~= b@);
    }
    true
}

/// The canonical identifier for raw identifier `raw` at automatic index
/// `next`.
fn canon_of(raw: &Vec<char>, next: usize) -> (id: Vec<char>)
    ensures
        id@ == canon_ident(raw@, next as int),
{
    if raw.len() == 0 {
        let mut id: Vec<char> = Vec::new();
        id.push('_');
        id.push('_');
        let digits = render_dec(next);
        append_chars(&mut id, &digits);
        proof {
            assert(id@ =~= canon_prefix() + dec_digits(next as int));
        }
        id
    } else if is_positional_ref(raw) {
        let mut id: Vec<char> = Vec::new();
        id.push('_');
        id.push('_');
        append_chars(&mut id, raw);
        proof {
            assert(id@ =~= canon_prefix() + raw@);
        }
        id
    } else {
        let mut id: Vec<char> = Vec::new();
        append_chars(&mut id, raw);
        proof {
            assert(id@ =~= raw@);
        }
        id
    }
}

/// Record `id` among the collected fields unless it is already there.
fn insert_unique(fields: &mut Vec<Vec<char>>, id: Vec<char>)
    ensures
        views_of(final(fields)@) == push_unique(views_of(old(fields)@), id@),
{
    let mut i: usize = 0;
    while i < fields.len()
        invariant
            i <= fields.len(),
            fields@ == old(fields)@,
            forall|k: int| 0 <= k < i ==> fields@[k]@ != id@,
        decreases fields.len() - i,
    {
        if chars_eq(&fields[i], &id) {
            proof {
                assert(views_of(fields@)[i as int] == id@);
                assert(views_of(fields@).contains(id@));
            }
            return;
        }
        i += 1;
    }
    proof {
        assert(forall|k: int|
            0 <= k < views_of(fields@).len() ==> views_of(fields@)[k] != id@);
        assert(!views_of(fields@).contains(id@));
    }
    let ghost before = fields@;
    fields.push(id);
    proof {
        assert(views_of(fields@) =~= views_of(before).push(id@));
    }
}

/// Copy a character buffer into a `String`.
fn string_of_chars(v: &Vec<char>) -> (s: String)
    ensures
        s@ == v@,
{
    let mut s = String::new();
    let mut i: usize = 0;
    proof {
        assert(s@ =~= v@.take(0));
    }
    while i < v.len()
        invariant
            i <= v.len(),
            s@ == v@.take(i as int),
        decreases v.len() - i,
    {
        push_char(&mut s, v[i]);
        proof {
            assert(v@.take(i as int).push(v@[i as int]) =~= v@.take(i as int + 1));
        }
        i += 1;
    }
    proof {
        assert(v@.take(v@.len() as int) =~= v@);
    }
    s
}

/// Build the scanner state from the exec-side pieces.
pub open spec fn mk_state(
    mode: Mode,
    ident: Seq<char>,
    spec_text: Seq<char>,
    next: int,
    out: Seq<char>,
    fields: Seq<Seq<char>>,
) -> ScanState {
    ScanState { mode, ident, spec_text, next, out, fields }
}

/// Parses the format string, extracts field names, and processes
/// placeholders:
/// - named values `{name}` stay as they are,
/// - positional values `{}` and `{n}` become `{__n}`, where `n` is the
///   automatically assigned or the explicitly written index,
/// - specifiers after `:` are copied verbatim, `{{` escapes pass through,
/// - a placeholder left open at the end of the input is dropped.
///
/// Returns the rewritten text and the distinct canonical identifiers in
/// first-appearance order.
pub fn parse_internal(text: &str) -> (res: (String, Vec<String>))
    ensures
        res.0@ == normalize(text@).text,
        str_views(res.1@) == normalize(text@).fields,
{
    let ghost s = text@;
    let n = text.unicode_len();
    let mut chars: Vec<char> = Vec::new();
    let mut j: usize = 0;
    proof {
        assert(chars@ =~= s.take(0));
    }
    while j < n
        invariant
            j <= n,
            n == s.len(),
            s == text@,
            chars@ == s.take(j as int),
        decreases n - j,
    {
        chars.push(text.get_char(j));
        proof {
            assert(s.take(j as int).push(s[j as int]) =~= s.take(j as int + 1));
        }
        j += 1;
    }
    proof {
        assert(s.take(s.len() as int) =~= s);
    }

    let mut mode = Mode::Literal;
    let mut ident: Vec<char> = Vec::new();
    let mut spec_txt: Vec<char> = Vec::new();
    let mut next: usize = 0;
    let mut out: Vec<char> = Vec::new();
    let mut fields: Vec<Vec<char>> = Vec::new();
    let mut i: usize = 0;

    proof {
        assert(views_of(fields@) =~= Seq::<Seq<char>>::empty());
        assert(mk_state(mode, ident@, spec_txt@, next as int, out@, views_of(fields@))
            == init_state());
        assert(s.skip(0) =~= s);
    }

    while i < chars.len()
        invariant
            i <= chars@.len(),
            chars@ == s,
            next <= i,
            scan_from(s, init_state()) == scan_from(
                s.skip(i as int),
                mk_state(mode, ident@, spec_txt@, next as int, out@, views_of(fields@)),
            ),
        decreases chars.len() - i,
    {
        let ghost st = mk_state(mode, ident@, spec_txt@, next as int, out@, views_of(fields@));
        let c = chars[i];
        proof {
            lemma_scan_from_step(s, st, i as int);
        }
        let closing = match mode {
            Mode::Literal => false,
            Mode::AfterOpen => c == '}',
            Mode::Ident => c == '}',
            Mode::Spec => c == '}',
        };
        if closing {
            let id = canon_of(&ident, next);
            out.push('{');
            append_chars(&mut out, &id);
            if spec_txt.len() > 0 {
                out.push(':');
                append_chars(&mut out, &spec_txt);
            }
            out.push('}');
            proof {
                assert(out@ =~= st.out + placeholder_text(id@, st.spec_text));
            }
            if ident.len() == 0 {
                next += 1;
            }
            insert_unique(&mut fields, id);
            ident = Vec::new();
            spec_txt = Vec::new();
            mode = Mode::Literal;
            proof {
                assert(mk_state(mode, ident@, spec_txt@, next as int, out@, views_of(fields@))
                    == close_placeholder(st));
            }
        } else {
            match mode {
                Mode::Literal => {
                    if c == '{' {
                        mode = Mode::AfterOpen;
                    } else {
                        out.push(c);
                    }
                },
                Mode::AfterOpen => {
                    if c == '{' {
                        out.push('{');
                        out.push('{');
                        mode = Mode::Literal;
                        proof {
                            assert(out@ =~= st.out + seq!['{', '{']);
                        }
                    } else if c == ':' {
                        mode = Mode::Spec;
                    } else {
                        ident.push(c);
                        mode = Mode::Ident;
                    }
                },
                Mode::Ident => {
                    if c == ':' {
                        mode = Mode::Spec;
                    } else {
                        ident.push(c);
                    }
                },
                Mode::Spec => {
                    spec_txt.push(c);
                },
            }
        }
        proof {
            assert(mk_state(mode, ident@, spec_txt@, next as int, out@, views_of(fields@))
                == scan_step(st, s[i as int]));
        }
        i += 1;
    }
    proof {
        assert(s.skip(s.len() as int) =~= Seq::<char>::empty());
        assert(out@ == normalize(s).text);
        assert(views_of(fields@) == normalize(s).fields);
    }

    let rewritten = string_of_chars(&out);
    let mut names: Vec<String> = Vec::new();
    let mut k: usize = 0;
    proof {
        assert(str_views(names@) =~= views_of(fields@).take(0));
    }
    while k < fields.len()
        invariant
            k <= fields@.len(),
            views_of(fields@) == normalize(s).fields,
            str_views(names@) == views_of(fields@).take(k as int),
        decreases fields.len() - k,
    {
        let ghost names_before = names@;
        names.push(string_of_chars(&fields[k]));
        proof {
            assert(str_views(names@) =~= str_views(names_before).push(fields@[k as int]@));
            assert(views_of(fields@).take(k as int).push(views_of(fields@)[k as int]) =~= views_of(
                fields@,
            ).take(k as int + 1));
        }
        k += 1;
    }
    proof {
        assert(views_of(fields@).take(views_of(fields@).len() as int) =~= views_of(fields@));
    }
    (rewritten, names)
}

/// Holds the rewritten format string and the field names used for
/// interpolation, for one enum variant.
///
/// The downstream code generator reads the struct's fields to emit
/// formatting logic for the variant.
pub struct Interpolate<'a> {
    /// The variant for which the format string is being interpolated.
    pub variant: &'a syn::Variant,
    /// The format string with placeholders processed.
    pub rewritten_text: String,
    /// The distinct field names used in the format string, in
    /// first-appearance order.
    pub identifiers: Vec<String>,
}

impl<'a> Interpolate<'a> {
    /// The format string with placeholders processed:
    /// - Named values: `{name}` remains as is
    /// - Positional values: `{n}` becomes `__n` where n is the index
    ///   (manually specified or auto-incremented)
    pub fn parse(fmt_text: &str, variant: &'a syn::Variant) -> (res: Interpolate<'a>)
        ensures
            res.rewritten_text@ == normalize(fmt_text@).text,
            str_views(res.identifiers@) == normalize(fmt_text@).fields,
            res.variant == variant,
    {
        let (rewritten_text, identifiers) = parse_internal(fmt_text);
        Interpolate { variant, rewritten_text, identifiers }
    }
}

} // verus!

