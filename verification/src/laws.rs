//! General properties of normalization, stated and proved once for all
//! templates.

use vstd::prelude::*;

use crate::model::all_digits;
use crate::model::canon_ident;
use crate::model::close_placeholder;
use crate::model::dec_digits;
use crate::model::init_state;
use crate::model::is_digit;
use crate::model::is_positional;
use crate::model::lemma_dec_digits_props;
use crate::model::normalize;
use crate::model::placeholder_text;
use crate::model::push_unique;
use crate::model::scan_from;
use crate::model::scan_step;
use crate::model::Mode;
use crate::model::ScanState;

verus! {

/// From `Literal` mode, a run of characters containing no `{` is copied
/// verbatim and touches neither the fields nor the counter.
proof fn lemma_scan_literal_run(s: Seq<char>, st: ScanState)
    requires
        st.mode is Literal,
        forall|i: int| 0 <= i < s.len() ==> s[i] != '{',
    ensures
        scan_from(s, st).out == st.out + s,
        scan_from(s, st).fields == st.fields,
        scan_from(s, st).next == st.next,
        scan_from(s, st).mode is Literal,
    decreases s.len(),
{
    if s.len() == 0 {
        assert(st.out + s =~= st.out);
    } else {
        let c = s.first();
        assert(c == s[0]);
        let st1 = scan_step(st, c);
        assert(st1.out == st.out.push(c));
        assert(forall|i: int| 0 <= i < s.drop_first().len() ==> s.drop_first()[i] != '{');
        lemma_scan_literal_run(s.drop_first(), st1);
        assert(st.out.push(c) + s.drop_first() =~= st.out + s);
    }
}

/// A template with no brace characters at all is returned unchanged and
/// references no field.
pub proof fn lemma_no_braces_unchanged(s: Seq<char>)
    requires
        forall|i: int| 0 <= i < s.len() ==> s[i] != '{' && s[i] != '}',
    ensures
        normalize(s).text == s,
        normalize(s).fields == Seq::<Seq<char>>::empty(),
{
    lemma_scan_literal_run(s, init_state());
    assert(Seq::<char>::empty() + s =~= s);
}

/// Whether a template consists solely of escaped braces: a sequence of
/// `{{` and `}}` pairs.
pub open spec fn all_brace_escapes(s: Seq<char>) -> bool
    decreases s.len(),
{
    if s.len() == 0 {
        true
    } else {
        s.len() >= 2 && ((s[0] == '{' && s[1] == '{') || (s[0] == '}' && s[1] == '}'))
            && all_brace_escapes(s.skip(2))
    }
}

/// From `Literal` mode, a run of escaped braces is copied verbatim and
/// touches neither the fields nor the counter.
proof fn lemma_scan_escapes_run(s: Seq<char>, st: ScanState)
    requires
        st.mode is Literal,
        all_brace_escapes(s),
    ensures
        scan_from(s, st).out == st.out + s,
        scan_from(s, st).fields == st.fields,
        scan_from(s, st).next == st.next,
        scan_from(s, st).mode is Literal,
    decreases s.len(),
{
    if s.len() == 0 {
        assert(st.out + s =~= st.out);
    } else {
        let st1 = scan_step(st, s.first());
        assert(s.first() == s[0]);
        assert(s.drop_first().first() == s[1]);
        let st2 = scan_step(st1, s[1]);
        assert(scan_from(s, st) == scan_from(s.drop_first(), st1));
        assert(s.drop_first().len() > 0);
        assert(scan_from(s.drop_first(), st1) == scan_from(s.drop_first().drop_first(), st2));
        assert(s.drop_first().drop_first() =~= s.skip(2));
        assert(st2.out == st.out + seq![s[0], s[1]]) by {
            if s[0] == '{' {
                assert(st.out + seq!['{', '{'] =~= st.out + seq![s[0], s[1]]);
            } else {
                assert(st.out.push('}').push('}') =~= st.out + seq![s[0], s[1]]);
            }
        }
        lemma_scan_escapes_run(s.skip(2), st2);
        assert((st.out + seq![s[0], s[1]]) + s.skip(2) =~= st.out + s);
    }
}

/// A template consisting solely of escaped braces is preserved as
/// written and references no field.
pub proof fn lemma_escapes_preserved(s: Seq<char>)
    requires
        all_brace_escapes(s),
    ensures
        normalize(s).text == s,
        normalize(s).fields == Seq::<Seq<char>>::empty(),
{
    lemma_scan_escapes_run(s, init_state());
    assert(Seq::<char>::empty() + s =~= s);
}

/// Canonical identifiers are fixed points of identifier
/// canonicalization: applying the canonicalization rules to a canonical
/// identifier, at any counter position, gives it back unchanged. In
/// particular, re-normalizing the `__n` names of a rewritten template
/// does not alter field identities.
pub proof fn lemma_canon_ident_idempotent(raw: Seq<char>, next: int, next2: int)
    ensures
        canon_ident(canon_ident(raw, next), next2) == canon_ident(raw, next),
{
    let id = canon_ident(raw, next);
    if raw.len() == 0 || is_positional(raw) {
        assert(id[0] == '_');
        assert(!is_digit(id[0]));
        assert(!all_digits(id));
    }
}

/// An explicit positional literal and the automatic counter converge:
/// the canonical identifier of the written-out index `n` is exactly the
/// one an automatic placeholder gets when the counter stands at `n`,
/// whatever the counter position at the explicit reference.
pub proof fn lemma_explicit_matches_auto(n: int, next: int)
    requires
        0 <= n <= 255,
    ensures
        canon_ident(dec_digits(n), next) == canon_ident(Seq::<char>::empty(), n),
{
    lemma_dec_digits_props(n);
}

/// Scanning a concatenation is scanning the parts in turn.
proof fn lemma_scan_append(a: Seq<char>, b: Seq<char>, st: ScanState)
    ensures
        scan_from(a + b, st) == scan_from(b, scan_from(a, st)),
    decreases a.len(),
{
    if a.len() == 0 {
        assert(a + b =~= b);
    } else {
        assert((a + b).first() == a.first());
        assert((a + b).drop_first() =~= a.drop_first() + b);
        lemma_scan_append(a.drop_first(), b, scan_step(st, a.first()));
    }
}

/// Scanning a single character is one step.
proof fn lemma_scan_one(st: ScanState, c: char)
    ensures
        scan_from(seq![c], st) == scan_step(st, c),
{
    assert(seq![c].first() == c);
    assert(seq![c].drop_first() =~= Seq::<char>::empty());
    assert(scan_from(seq![c], st) == scan_from(seq![c].drop_first(), scan_step(st, c)));
    assert(scan_from(Seq::<char>::empty(), scan_step(st, c)) == scan_step(st, c));
}

/// A raw identifier buffer can only hold what the scanner lets in: no
/// `:` and no `}` anywhere, and no `{` as its first character.
pub open spec fn identifier_ok(b: Seq<char>) -> bool {
    &&& forall|i: int| 0 <= i < b.len() ==> b[i] != ':' && b[i] != '}'
    &&& (b.len() > 0 ==> b[0] != '{')
}

/// A specifier buffer can hold anything but the terminating `}`.
pub open spec fn specifier_ok(b: Seq<char>) -> bool {
    forall|i: int| 0 <= i < b.len() ==> b[i] != '}'
}

/// The scanner's reachable states: the counter is non-negative, the
/// buffers hold only what their modes let in, and outside a placeholder
/// the buffers are empty.
pub open spec fn wf_state(st: ScanState) -> bool {
    &&& identifier_ok(st.ident)
    &&& specifier_ok(st.spec_text)
    &&& st.next >= 0
    &&& ((st.mode is Literal || st.mode is AfterOpen) ==> st.ident.len() == 0
        && st.spec_text.len() == 0)
    &&& (st.mode is Ident ==> st.ident.len() > 0)
}

/// Every canonical identifier is non-empty, does not start with `{`, and
/// contains neither `:` nor `}`: re-scanning it reads it back whole.
proof fn lemma_canon_ident_shape(raw: Seq<char>, next: int)
    requires
        identifier_ok(raw),
        next >= 0,
    ensures
        canon_ident(raw, next).len() > 0,
        canon_ident(raw, next)[0] != '{',
        forall|i: int|
            0 <= i < canon_ident(raw, next).len() ==> canon_ident(raw, next)[i] != ':'
                && canon_ident(raw, next)[i] != '}',
{
    let id = canon_ident(raw, next);
    if raw.len() == 0 {
        lemma_dec_digits_props(next);
        let d = dec_digits(next);
        assert forall|i: int| 0 <= i < id.len() implies id[i] != ':' && id[i] != '}' by {
            if i < 2 {
                assert(id[i] == '_');
            } else {
                assert(id[i] == d[i - 2]);
                assert(is_digit(d[i - 2]));
            }
        }
        assert(id[0] == '_');
    } else if is_positional(raw) {
        assert forall|i: int| 0 <= i < id.len() implies id[i] != ':' && id[i] != '}' by {
            if i < 2 {
                assert(id[i] == '_');
            } else {
                assert(id[i] == raw[i - 2]);
                assert(is_digit(raw[i - 2]));
            }
        }
        assert(id[0] == '_');
    }
}

/// In `Ident` mode, a run of characters free of `:` and `}` goes whole
/// into the raw identifier buffer.
proof fn lemma_scan_ident_run(w: Seq<char>, st: ScanState, rest: Seq<char>)
    requires
        st.mode is Ident,
        forall|i: int| 0 <= i < w.len() ==> w[i] != ':' && w[i] != '}',
    ensures
        scan_from(w + rest, st) == scan_from(rest, (ScanState { ident: st.ident + w, ..st })),
    decreases w.len(),
{
    if w.len() == 0 {
        assert(w + rest =~= rest);
        assert(st.ident + w =~= st.ident);
    } else {
        let c = w.first();
        assert((w + rest).first() == c);
        assert((w + rest).drop_first() =~= w.drop_first() + rest);
        let st1 = scan_step(st, c);
        assert(st1 == (ScanState { ident: st.ident.push(c), ..st }));
        lemma_scan_ident_run(w.drop_first(), st1, rest);
        assert(st.ident.push(c) + w.drop_first() =~= st.ident + w);
    }
}

/// In `Spec` mode, a run of characters free of `}` goes whole into the
/// specifier buffer.
proof fn lemma_scan_spec_run(w: Seq<char>, st: ScanState, rest: Seq<char>)
    requires
        st.mode is Spec,
        forall|i: int| 0 <= i < w.len() ==> w[i] != '}',
    ensures
        scan_from(w + rest, st) == scan_from(
            rest,
            (ScanState { spec_text: st.spec_text + w, ..st }),
        ),
    decreases w.len(),
{
    if w.len() == 0 {
        assert(w + rest =~= rest);
        assert(st.spec_text + w =~= st.spec_text);
    } else {
        let c = w.first();
        assert((w + rest).first() == c);
        assert((w + rest).drop_first() =~= w.drop_first() + rest);
        let st1 = scan_step(st, c);
        assert(st1 == (ScanState { spec_text: st.spec_text.push(c), ..st }));
        lemma_scan_spec_run(w.drop_first(), st1, rest);
        assert(st.spec_text.push(c) + w.drop_first() =~= st.spec_text + w);
    }
}

/// Re-scanning an emitted placeholder from `Literal` mode with empty
/// buffers reads back exactly the identifier and specifier it was
/// emitted from, and so reproduces it verbatim.
proof fn lemma_scan_placeholder(id: Seq<char>, sp: Seq<char>, st: ScanState, rest: Seq<char>)
    requires
        st.mode is Literal,
        st.ident.len() == 0,
        st.spec_text.len() == 0,
        id.len() > 0,
        id[0] != '{',
        forall|i: int| 0 <= i < id.len() ==> id[i] != ':' && id[i] != '}',
        forall|i: int| 0 <= i < sp.len() ==> sp[i] != '}',
        canon_ident(id, st.next) == id,
    ensures
        scan_from(placeholder_text(id, sp) + rest, st) == scan_from(
            rest,
            (ScanState {
                mode: Mode::Literal,
                ident: Seq::empty(),
                spec_text: Seq::empty(),
                next: st.next,
                out: st.out + placeholder_text(id, sp),
                fields: push_unique(st.fields, id),
            }),
        ),
{
    let ph = placeholder_text(id, sp);
    let t = ph + rest;
    let tail = if sp.len() > 0 {
        seq![':'] + sp + seq!['}'] + rest
    } else {
        seq!['}'] + rest
    };

    // the opening brace
    assert(t.first() == '{');
    let st1 = scan_step(st, '{');
    assert(st1 == (ScanState { mode: Mode::AfterOpen, ..st }));
    assert(scan_from(t, st) == scan_from(t.drop_first(), st1));
    assert(t.drop_first() =~= id + tail);

    // the first identifier character
    let u = id + tail;
    assert(u.first() == id[0]);
    let st2 = scan_step(st1, id[0]);
    assert(st1.ident.push(id[0]) =~= seq![id[0]]);
    assert(st2 == (ScanState { mode: Mode::Ident, ident: seq![id[0]], ..st1 }));
    assert(scan_from(u, st1) == scan_from(u.drop_first(), st2));
    assert(u.drop_first() =~= id.drop_first() + tail);

    // the rest of the identifier
    assert(forall|i: int|
        0 <= i < id.drop_first().len() ==> id.drop_first()[i] != ':' && id.drop_first()[i]
            != '}');
    lemma_scan_ident_run(id.drop_first(), st2, tail);
    let st3 = (ScanState { ident: seq![id[0]] + id.drop_first(), ..st2 });
    assert(seq![id[0]] + id.drop_first() =~= id);

    let fin = (ScanState {
        mode: Mode::Literal,
        ident: Seq::empty(),
        spec_text: Seq::empty(),
        next: st.next,
        out: st.out + ph,
        fields: push_unique(st.fields, id),
    });

    if sp.len() > 0 {
        // the colon
        assert(tail.first() == ':');
        let st4 = scan_step(st3, ':');
        assert(st4 == (ScanState { mode: Mode::Spec, ..st3 }));
        assert(scan_from(tail, st3) == scan_from(tail.drop_first(), st4));
        assert(tail.drop_first() =~= sp + (seq!['}'] + rest));

        // the specifier
        lemma_scan_spec_run(sp, st4, seq!['}'] + rest);
        let st5 = (ScanState { spec_text: st4.spec_text + sp, ..st4 });
        assert(st4.spec_text + sp =~= sp);

        // the closing brace
        assert((seq!['}'] + rest).first() == '}');
        assert((seq!['}'] + rest).drop_first() =~= rest);
        assert(scan_from(seq!['}'] + rest, st5) == scan_from(rest, close_placeholder(st5)));
        assert(close_placeholder(st5) == fin);
    } else {
        // the closing brace
        assert(tail.first() == '}');
        assert(tail.drop_first() =~= rest);
        assert(scan_from(tail, st3) == scan_from(rest, close_placeholder(st3)));
        assert(close_placeholder(st3) == fin);
    }
}

/// The re-scan fixed point: scanning the text accumulated in `st.out`
/// from the initial state copies it verbatim, collects exactly the
/// fields `st` has collected, and never moves the counter.
pub open spec fn rescan_fixed(st: ScanState) -> bool {
    scan_from(st.out, init_state()) == (ScanState {
        mode: Mode::Literal,
        ident: Seq::empty(),
        spec_text: Seq::empty(),
        next: 0,
        out: st.out,
        fields: st.fields,
    })
}

/// Closing a placeholder preserves well-formedness and the re-scan
/// fixed point.
proof fn lemma_rescan_close(st: ScanState)
    requires
        wf_state(st),
        rescan_fixed(st),
    ensures
        wf_state(close_placeholder(st)),
        rescan_fixed(close_placeholder(st)),
{
    let id = canon_ident(st.ident, st.next);
    lemma_canon_ident_shape(st.ident, st.next);
    lemma_canon_ident_idempotent(st.ident, st.next, 0);
    let ph = placeholder_text(id, st.spec_text);
    lemma_scan_append(st.out, ph, init_state());
    let lit = (ScanState {
        mode: Mode::Literal,
        ident: Seq::empty(),
        spec_text: Seq::empty(),
        next: 0,
        out: st.out,
        fields: st.fields,
    });
    lemma_scan_placeholder(id, st.spec_text, lit, Seq::empty());
    assert(ph + Seq::<char>::empty() =~= ph);
    assert(close_placeholder(st).out == st.out + ph);
}

/// One scanner step preserves well-formedness and the re-scan fixed
/// point.
proof fn lemma_rescan_step(st: ScanState, c: char)
    requires
        wf_state(st),
        rescan_fixed(st),
    ensures
        wf_state(scan_step(st, c)),
        rescan_fixed(scan_step(st, c)),
{
    let st2 = scan_step(st, c);
    match st.mode {
        Mode::Literal => {
            if c != '{' {
                lemma_scan_append(st.out, seq![c], init_state());
                assert(st.out + seq![c] =~= st.out.push(c));
                let lit = scan_from(st.out, init_state());
                lemma_scan_one(lit, c);
                assert(st2.out == st.out.push(c));
            }
        },
        Mode::AfterOpen => {
            if c == '{' {
                lemma_scan_append(st.out, seq!['{', '{'], init_state());
                let lit = scan_from(st.out, init_state());
                let w = seq!['{', '{'];
                assert(w.first() == '{');
                let lit1 = scan_step(lit, '{');
                assert(scan_from(w, lit) == scan_from(w.drop_first(), lit1));
                assert(w.drop_first() =~= seq!['{']);
                lemma_scan_one(lit1, '{');
                assert(st2.out == st.out + w);
                assert(scan_step(lit1, '{').out == st.out + w);
            } else if c == '}' {
                lemma_rescan_close(st);
            } else if c != ':' {
                assert(st.ident.push(c) =~= seq![c]);
                assert(identifier_ok(seq![c]));
            }
        },
        Mode::Ident => {
            if c == '}' {
                lemma_rescan_close(st);
            } else if c != ':' {
                let b = st.ident.push(c);
                assert forall|i: int| 0 <= i < b.len() implies b[i] != ':' && b[i] != '}' by {
                    if i < st.ident.len() {
                        assert(b[i] == st.ident[i]);
                    } else {
                        assert(b[i] == c);
                    }
                }
                assert(b[0] == st.ident[0]);
            }
        },
        Mode::Spec => {
            if c == '}' {
                lemma_rescan_close(st);
            } else {
                let b = st.spec_text.push(c);
                assert forall|i: int| 0 <= i < b.len() implies b[i] != '}' by {
                    if i < st.spec_text.len() {
                        assert(b[i] == st.spec_text[i]);
                    } else {
                        assert(b[i] == c);
                    }
                }
            }
        },
    }
}

/// Scanning from any well-formed state at the re-scan fixed point stays
/// at the fixed point.
proof fn lemma_rescan_sim(s: Seq<char>, st: ScanState)
    requires
        wf_state(st),
        rescan_fixed(st),
    ensures
        wf_state(scan_from(s, st)),
        rescan_fixed(scan_from(s, st)),
    decreases s.len(),
{
    if s.len() > 0 {
        lemma_rescan_step(st, s.first());
        lemma_rescan_sim(s.drop_first(), scan_step(st, s.first()));
    }
}

/// Normalization is idempotent: re-normalizing a rewritten template
/// alters neither its text nor its field identities. In particular, a
/// rewritten template of positional placeholders keeps its `__n` names
/// word for word.
pub proof fn lemma_normalize_idempotent(s: Seq<char>)
    ensures
        normalize(normalize(s).text).text == normalize(s).text,
        normalize(normalize(s).text).fields == normalize(s).fields,
{
    assert(scan_from(Seq::<char>::empty(), init_state()) == init_state());
    lemma_rescan_sim(s, init_state());
}

/// `push_unique` keeps the collected fields free of duplicates.
proof fn lemma_push_unique_distinct(fields: Seq<Seq<char>>, id: Seq<char>)
    requires
        fields.no_duplicates(),
    ensures
        push_unique(fields, id).no_duplicates(),
{
    if !fields.contains(id) {
        let w = fields.push(id);
        assert forall|i: int, j: int|
            0 <= i < w.len() && 0 <= j < w.len() && i != j implies w[i] != w[j] by {
            if i == fields.len() as int {
                if w[j] == id {
                    assert(fields[j] == id);
                    assert(fields.contains(id));
                }
            } else if j == fields.len() as int {
                if w[i] == id {
                    assert(fields[i] == id);
                    assert(fields.contains(id));
                }
            }
        }
    }
}

/// Scanning preserves distinctness of the collected fields.
proof fn lemma_scan_fields_distinct(s: Seq<char>, st: ScanState)
    requires
        st.fields.no_duplicates(),
    ensures
        scan_from(s, st).fields.no_duplicates(),
    decreases s.len(),
{
    if s.len() > 0 {
        lemma_push_unique_distinct(st.fields, canon_ident(st.ident, st.next));
        lemma_scan_fields_distinct(s.drop_first(), scan_step(st, s.first()));
    }
}

/// The field set never lists an identifier twice: an identifier used by
/// several placeholders appears once.
pub proof fn lemma_fields_distinct(s: Seq<char>)
    ensures
        normalize(s).fields.no_duplicates(),
{
    lemma_scan_fields_distinct(s, init_state());
}

} // verus!
