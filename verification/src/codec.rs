use vstd::prelude::*;

use crate::session::{FocusSession, SessionView, views};
use crate::text::push_char;
use vstd::string::StrSliceExecFns;

verus! {

// ---------------------------------------------------------------------------
// The export document format.
//
// A document is a single line shaped like a JSON array of records:
//
//   [{"id":"..","task":"..","duration":N,"start_time":"..","end_time":"..",
//     "completed":true,"tags":["..",".."]},...]
//
// Strings escape only `"` and `\` (each with a leading backslash); every
// other character stands for itself. Durations are decimal and at least 1;
// the encoder writes them without leading zeros. The parser accepts only
// this shape (it tolerates leading zeros in a number), so a document
// round-trips field for field.
// ---------------------------------------------------------------------------
pub open spec fn is_digit(c: char) -> bool {
    48 <= c as u32 && c as u32 <= 57
}

pub open spec fn digit_val(c: char) -> nat {
    (c as u32 - 48) as nat
}

pub open spec fn digit_char(d: nat) -> char {
    if d == 0 {
        '0'
    } else if d == 1 {
        '1'
    } else if d == 2 {
        '2'
    } else if d == 3 {
        '3'
    } else if d == 4 {
        '4'
    } else if d == 5 {
        '5'
    } else if d == 6 {
        '6'
    } else if d == 7 {
        '7'
    } else if d == 8 {
        '8'
    } else {
        '9'
    }
}

/// How one character is written inside a quoted string.
pub open spec fn esc_char(c: char) -> Seq<char> {
    if c == '"' || c == '\\' {
        seq!['\\', c]
    } else {
        seq![c]
    }
}

/// How a whole string body is written inside its quotes.
pub open spec fn esc_str(s: Seq<char>) -> Seq<char>
    decreases s.len(),
{
    if s.len() == 0 {
        Seq::empty()
    } else {
        esc_char(s[0]) + esc_str(s.skip(1))
    }
}

/// A quoted string: `"` body `"`.
pub open spec fn enc_quoted(s: Seq<char>) -> Seq<char> {
    seq!['"'] + esc_str(s) + seq!['"']
}

/// Decimal digits of `n`, no leading zeros.
pub open spec fn dec_u32(n: nat) -> Seq<char>
    decreases n,
{
    if n < 10 {
        seq![digit_char(n)]
    } else {
        dec_u32(n / 10).push(digit_char(n % 10))
    }
}

pub open spec fn enc_bool(b: bool) -> Seq<char> {
    if b {
        "true"@
    } else {
        "false"@
    }
}

/// Comma-separated quoted tags.
pub open spec fn enc_tags_items(tags: Seq<Seq<char>>) -> Seq<char>
    decreases tags.len(),
{
    if tags.len() == 0 {
        Seq::empty()
    } else if tags.len() == 1 {
        enc_quoted(tags[0])
    } else {
        enc_quoted(tags[0]) + seq![','] + enc_tags_items(tags.skip(1))
    }
}

pub open spec fn enc_tags(tags: Seq<Seq<char>>) -> Seq<char> {
    seq!['['] + enc_tags_items(tags) + seq![']']
}

/// One session record.
pub open spec fn enc_session(v: SessionView) -> Seq<char> {
    "{\"id\":"@ + enc_quoted(v.id) + ",\"task\":"@ + enc_quoted(v.task) + ",\"duration\":"@
        + dec_u32(v.duration as nat) + ",\"start_time\":"@ + enc_quoted(v.start_time)
        + ",\"end_time\":"@ + enc_quoted(v.end_time) + ",\"completed\":"@ + enc_bool(v.completed)
        + ",\"tags\":"@ + enc_tags(v.tags) + seq!['}']
}

/// Comma-separated session records.
pub open spec fn enc_doc_items(l: Seq<SessionView>) -> Seq<char>
    decreases l.len(),
{
    if l.len() == 0 {
        Seq::empty()
    } else if l.len() == 1 {
        enc_session(l[0])
    } else {
        enc_session(l[0]) + seq![','] + enc_doc_items(l.skip(1))
    }
}

/// A whole export document.
pub open spec fn enc_doc(l: Seq<SessionView>) -> Seq<char> {
    seq!['['] + enc_doc_items(l) + seq![']']
}

// ---------------------------------------------------------------------------
// The parser, as a mathematical function. Each piece consumes a prefix and
// returns the parsed value with the remaining input, or nothing when the
// input does not have the expected shape.
// ---------------------------------------------------------------------------
/// Consume an exact literal.
pub open spec fn sp_lit(s: Seq<char>, lit: Seq<char>) -> Option<Seq<char>> {
    if lit.len() <= s.len() && s.take(lit.len() as int) == lit {
        Some(s.skip(lit.len() as int))
    } else {
        None
    }
}

/// Consume a string body up to its closing quote, unescaping as it goes;
/// `acc` holds the characters already read.
pub open spec fn sp_strbody(s: Seq<char>, acc: Seq<char>) -> Option<(Seq<char>, Seq<char>)>
    decreases s.len(),
{
    if s.len() == 0 {
        None
    } else if s[0] == '"' {
        Some((acc, s.skip(1)))
    } else if s[0] == '\\' {
        if s.len() >= 2 && (s[1] == '"' || s[1] == '\\') {
            sp_strbody(s.skip(2), acc.push(s[1]))
        } else {
            None
        }
    } else {
        sp_strbody(s.skip(1), acc.push(s[0]))
    }
}

/// Consume a quoted string.
pub open spec fn sp_quoted(s: Seq<char>) -> Option<(Seq<char>, Seq<char>)> {
    if s.len() >= 1 && s[0] == '"' {
        sp_strbody(s.skip(1), Seq::empty())
    } else {
        None
    }
}

pub open spec fn count_digits(s: Seq<char>) -> int
    decreases s.len(),
{
    if s.len() == 0 || !is_digit(s[0]) {
        0
    } else {
        1 + count_digits(s.skip(1))
    }
}

pub open spec fn digits_val(s: Seq<char>) -> nat
    decreases s.len(),
{
    if s.len() == 0 {
        0
    } else {
        digits_val(s.drop_last()) * 10 + digit_val(s.last())
    }
}

/// Consume a decimal number that fits a `u32`.
pub open spec fn sp_u32(s: Seq<char>) -> Option<(u32, Seq<char>)> {
    let k = count_digits(s);
    if k == 0 {
        None
    } else if digits_val(s.take(k)) > u32::MAX {
        None
    } else {
        Some((digits_val(s.take(k)) as u32, s.skip(k)))
    }
}

/// Consume a boolean literal.
pub open spec fn sp_bool(s: Seq<char>) -> Option<(bool, Seq<char>)> {
    match sp_lit(s, "true"@) {
        Some(r) => Some((true, r)),
        None => match sp_lit(s, "false"@) {
            Some(r) => Some((false, r)),
            None => None,
        },
    }
}

/// Consume the items of a non-empty tag list, up to and including `]`.
pub open spec fn sp_tags_items(s: Seq<char>, acc: Seq<Seq<char>>) -> Option<
    (Seq<Seq<char>>, Seq<char>),
>
    decreases s.len(),
{
    match sp_quoted(s) {
        None => None,
        Some((t, r)) => {
            if r.len() == 0 {
                None
            } else if r[0] == ']' {
                Some((acc.push(t), r.skip(1)))
            } else if r[0] == ',' && r.len() <= s.len() {
                sp_tags_items(r.skip(1), acc.push(t))
            } else {
                None
            }
        },
    }
}

/// Consume a tag list.
pub open spec fn sp_tags(s: Seq<char>) -> Option<(Seq<Seq<char>>, Seq<char>)> {
    if s.len() >= 2 && s[0] == '[' && s[1] == ']' {
        Some((Seq::empty(), s.skip(2)))
    } else if s.len() >= 1 && s[0] == '[' {
        sp_tags_items(s.skip(1), Seq::empty())
    } else {
        None
    }
}

/// Consume one session record. A record whose duration is zero is not a
/// session at all, so it is rejected.
pub open spec fn sp_session(s: Seq<char>) -> Option<(SessionView, Seq<char>)> {
    match sp_lit(s, "{\"id\":"@) {
        None => None,
        Some(s1) => match sp_quoted(s1) {
            None => None,
            Some((id, s2)) => match sp_lit(s2, ",\"task\":"@) {
                None => None,
                Some(s3) => match sp_quoted(s3) {
                    None => None,
                    Some((task, s4)) => match sp_lit(s4, ",\"duration\":"@) {
                        None => None,
                        Some(s5) => match sp_u32(s5) {
                            None => None,
                            Some((duration, s6)) => if duration < 1 {
                                None
                            } else {
                                match sp_lit(s6, ",\"start_time\":"@) {
                                    None => None,
                                    Some(s7) => match sp_quoted(s7) {
                                        None => None,
                                        Some((start_time, s8)) => match sp_lit(
                                            s8,
                                            ",\"end_time\":"@,
                                        ) {
                                            None => None,
                                            Some(s9) => match sp_quoted(s9) {
                                                None => None,
                                                Some((end_time, s10)) => match sp_lit(
                                                    s10,
                                                    ",\"completed\":"@,
                                                ) {
                                                    None => None,
                                                    Some(s11) => match sp_bool(s11) {
                                                        None => None,
                                                        Some((completed, s12)) => match sp_lit(
                                                            s12,
                                                            ",\"tags\":"@,
                                                        ) {
                                                            None => None,
                                                            Some(s13) => match sp_tags(s13) {
                                                                None => None,
                                                                Some((tags, s14)) => match sp_lit(
                                                                    s14,
                                                                    "}"@,
                                                                ) {
                                                                    None => None,
                                                                    Some(s15) => Some(
                                                                        (
                                                                            SessionView {
                                                                                id,
                                                                                task,
                                                                                duration,
                                                                                start_time,
                                                                                end_time,
                                                                                completed,
                                                                                tags,
                                                                            },
                                                                            s15,
                                                                        ),
                                                                    ),
                                                                },
                                                            },
                                                        },
                                                    },
                                                },
                                            },
                                        },
                                    },
                                }
                            },
                        },
                    },
                },
            },
        },
    }
}

/// Consume the items of a non-empty record list, up to and including `]`.
pub open spec fn sp_doc_items(s: Seq<char>, acc: Seq<SessionView>) -> Option<
    (Seq<SessionView>, Seq<char>),
>
    decreases s.len(),
{
    match sp_session(s) {
        None => None,
        Some((x, r)) => {
            if r.len() == 0 {
                None
            } else if r[0] == ']' {
                Some((acc.push(x), r.skip(1)))
            } else if r[0] == ',' && r.len() <= s.len() {
                sp_doc_items(r.skip(1), acc.push(x))
            } else {
                None
            }
        },
    }
}

/// Parse a whole document; the entire input must be consumed.
pub open spec fn sp_doc(s: Seq<char>) -> Option<Seq<SessionView>> {
    if s.len() == 2 && s[0] == '[' && s[1] == ']' {
        Some(Seq::empty())
    } else if s.len() >= 1 && s[0] == '[' {
        match sp_doc_items(s.skip(1), Seq::empty()) {
            Some((l, r)) => if r.len() == 0 {
                Some(l)
            } else {
                None
            },
            None => None,
        }
    } else {
        None
    }
}

// ---------------------------------------------------------------------------
// The executable encoder.
// ---------------------------------------------------------------------------
fn digit_to_char(d: u32) -> (c: char)
    requires
        d < 10,
    ensures
        c == digit_char(d as nat),
{
    if d == 0 {
        '0'
    } else if d == 1 {
        '1'
    } else if d == 2 {
        '2'
    } else if d == 3 {
        '3'
    } else if d == 4 {
        '4'
    } else if d == 5 {
        '5'
    } else if d == 6 {
        '6'
    } else if d == 7 {
        '7'
    } else if d == 8 {
        '8'
    } else {
        '9'
    }
}

proof fn lemma_esc_str_snoc(s: Seq<char>, c: char)
    ensures
        esc_str(s.push(c)) == esc_str(s) + esc_char(c),
    decreases s.len(),
{
    if s.len() == 0 {
        assert(s.push(c)[0] == c);
        assert(s.push(c).skip(1) =~= Seq::<char>::empty());
        assert(esc_str(Seq::<char>::empty()) =~= Seq::<char>::empty());
        assert(esc_str(s.push(c)) =~= esc_str(s) + esc_char(c));
    } else {
        assert(s.push(c).skip(1) =~= s.skip(1).push(c));
        lemma_esc_str_snoc(s.skip(1), c);
        assert(esc_str(s.push(c)) =~= esc_str(s) + esc_char(c));
    }
}

fn push_escaped(out: &mut String, s: &str)
    ensures
        final(out)@ == old(out)@ + esc_str(s@),
{
    let n = s.unicode_len();
    let mut i: usize = 0;
    proof {
        assert(s@.take(0) =~= Seq::<char>::empty());
        assert(out@ =~= out@ + esc_str(s@.take(0)));
    }
    while i < n
        invariant
            i <= n,
            n == s@.len(),
            out@ == old(out)@ + esc_str(s@.take(i as int)),
        decreases n - i,
    {
        let c = s.get_char(i);
        if c == '"' || c == '\\' {
            push_char(out, '\\');
        }
        push_char(out, c);
        proof {
            assert(s@.take(i + 1) =~= s@.take(i as int).push(s@[i as int]));
            lemma_esc_str_snoc(s@.take(i as int), s@[i as int]);
            assert(out@ =~= old(out)@ + esc_str(s@.take(i + 1)));
        }
        i += 1;
    }
    proof {
        assert(s@.take(n as int) =~= s@);
    }
}

fn push_quoted(out: &mut String, s: &str)
    ensures
        final(out)@ == old(out)@ + enc_quoted(s@),
{
    push_char(out, '"');
    push_escaped(out, s);
    push_char(out, '"');
    proof {
        assert(out@ =~= old(out)@ + enc_quoted(s@));
    }
}

fn push_u32(out: &mut String, n: u32)
    ensures
        final(out)@ == old(out)@ + dec_u32(n as nat),
    decreases n,
{
    if n >= 10 {
        push_u32(out, n / 10);
        let c = digit_to_char(n % 10);
        push_char(out, c);
        proof {
            assert(out@ =~= old(out)@ + dec_u32(n as nat));
        }
    } else {
        let c = digit_to_char(n);
        push_char(out, c);
        proof {
            assert(out@ =~= old(out)@ + dec_u32(n as nat));
        }
    }
}

fn push_bool(out: &mut String, b: bool)
    ensures
        final(out)@ == old(out)@ + enc_bool(b),
{
    if b {
        out.append("true");
    } else {
        out.append("false");
    }
}

proof fn lemma_enc_tags_items_snoc(tags: Seq<Seq<char>>, t: Seq<char>)
    ensures
        tags.len() == 0 ==> enc_tags_items(tags.push(t)) == enc_quoted(t),
        tags.len() >= 1 ==> enc_tags_items(tags.push(t)) == enc_tags_items(tags) + seq![',']
            + enc_quoted(t),
    decreases tags.len(),
{
    if tags.len() == 0 {
        assert(tags.push(t)[0] == t);
        assert(enc_tags_items(tags.push(t)) == enc_quoted(t));
    } else if tags.len() == 1 {
        assert(tags.push(t)[0] == tags[0]);
        assert(tags.push(t).skip(1) =~= seq![t]);
        assert(enc_tags_items(seq![t]) == enc_quoted(t));
        assert(enc_tags_items(tags.push(t)) =~= enc_tags_items(tags) + seq![','] + enc_quoted(t));
    } else {
        assert(tags.push(t).skip(1) =~= tags.skip(1).push(t));
        lemma_enc_tags_items_snoc(tags.skip(1), t);
        assert(enc_tags_items(tags.push(t)) =~= enc_tags_items(tags) + seq![','] + enc_quoted(t));
    }
}

fn push_tags(out: &mut String, tags: &Vec<String>)
    ensures
        final(out)@ == old(out)@ + enc_tags(tags.deep_view()),
{
    push_char(out, '[');
    let mut j: usize = 0;
    proof {
        assert(tags.deep_view().take(0) =~= Seq::<Seq<char>>::empty());
        assert(out@ =~= old(out)@ + seq!['['] + enc_tags_items(tags.deep_view().take(0)));
    }
    while j < tags.len()
        invariant
            j <= tags.len(),
            tags.deep_view().len() == tags.len(),
            out@ == old(out)@ + seq!['['] + enc_tags_items(tags.deep_view().take(j as int)),
        decreases tags.len() - j,
    {
        if j > 0 {
            push_char(out, ',');
        }
        push_quoted(out, tags[j].as_str());
        proof {
            let gtags = tags.deep_view();
            assert(gtags[j as int] == tags[j as int]@);
            assert(gtags.take(j + 1) =~= gtags.take(j as int).push(gtags[j as int]));
            lemma_enc_tags_items_snoc(gtags.take(j as int), gtags[j as int]);
            assert(out@ =~= old(out)@ + seq!['['] + enc_tags_items(gtags.take(j + 1)));
        }
        j += 1;
    }
    push_char(out, ']');
    proof {
        assert(tags.deep_view().take(tags.len() as int) =~= tags.deep_view());
        assert(out@ =~= old(out)@ + enc_tags(tags.deep_view()));
    }
}

fn push_session(out: &mut String, s: &FocusSession)
    ensures
        final(out)@ == old(out)@ + enc_session(s@),
{
    out.append("{\"id\":");
    push_quoted(out, s.id.as_str());
    out.append(",\"task\":");
    push_quoted(out, s.task.as_str());
    out.append(",\"duration\":");
    push_u32(out, s.duration);
    out.append(",\"start_time\":");
    push_quoted(out, s.start_time.as_str());
    out.append(",\"end_time\":");
    push_quoted(out, s.end_time.as_str());
    out.append(",\"completed\":");
    push_bool(out, s.completed);
    out.append(",\"tags\":");
    push_tags(out, &s.tags);
    push_char(out, '}');
    proof {
        assert(out@ =~= old(out)@ + enc_session(s@));
    }
}

proof fn lemma_enc_doc_items_snoc(l: Seq<SessionView>, x: SessionView)
    ensures
        l.len() == 0 ==> enc_doc_items(l.push(x)) == enc_session(x),
        l.len() >= 1 ==> enc_doc_items(l.push(x)) == enc_doc_items(l) + seq![','] + enc_session(x),
    decreases l.len(),
{
    if l.len() == 0 {
        assert(l.push(x)[0] == x);
        assert(enc_doc_items(l.push(x)) == enc_session(x));
    } else if l.len() == 1 {
        assert(l.push(x)[0] == l[0]);
        assert(l.push(x).skip(1) =~= seq![x]);
        assert(enc_doc_items(seq![x]) == enc_session(x));
        assert(enc_doc_items(l.push(x)) =~= enc_doc_items(l) + seq![','] + enc_session(x));
    } else {
        assert(l.push(x).skip(1) =~= l.skip(1).push(x));
        lemma_enc_doc_items_snoc(l.skip(1), x);
        assert(enc_doc_items(l.push(x)) =~= enc_doc_items(l) + seq![','] + enc_session(x));
    }
}

/// Write the whole session list as one export document.
pub fn encode_sessions(sessions: &Vec<FocusSession>) -> (r: String)
    ensures
        r@ == enc_doc(views(sessions@)),
{
    let mut out = String::new();
    push_char(&mut out, '[');
    let mut j: usize = 0;
    proof {
        assert(views(sessions@).take(0) =~= Seq::<SessionView>::empty());
        assert(out@ =~= seq!['['] + enc_doc_items(views(sessions@).take(0)));
    }
    while j < sessions.len()
        invariant
            j <= sessions.len(),
            views(sessions@).len() == sessions.len(),
            out@ == seq!['['] + enc_doc_items(views(sessions@).take(j as int)),
        decreases sessions.len() - j,
    {
        if j > 0 {
            push_char(&mut out, ',');
        }
        push_session(&mut out, &sessions[j]);
        proof {
            let gl = views(sessions@);
            assert(gl[j as int] == sessions@[j as int]@);
            assert(gl.take(j + 1) =~= gl.take(j as int).push(gl[j as int]));
            lemma_enc_doc_items_snoc(gl.take(j as int), gl[j as int]);
            assert(out@ =~= seq!['['] + enc_doc_items(gl.take(j + 1)));
        }
        j += 1;
    }
    push_char(&mut out, ']');
    proof {
        assert(views(sessions@).take(sessions.len() as int) =~= views(sessions@));
        assert(out@ =~= enc_doc(views(sessions@)));
    }
    out
}

// ---------------------------------------------------------------------------
// The round trip: parsing what the encoder wrote gives back the values.
// ---------------------------------------------------------------------------
proof fn lemma_sp_lit_round(lit: Seq<char>, rest: Seq<char>)
    ensures
        sp_lit(lit + rest, lit) == Some(rest),
{
    let s = lit + rest;
    assert(s.take(lit.len() as int) =~= lit);
    assert(s.skip(lit.len() as int) =~= rest);
}

proof fn lemma_strbody_round(v: Seq<char>, acc: Seq<char>, rest: Seq<char>)
    ensures
        sp_strbody(esc_str(v) + seq!['"'] + rest, acc) == Some((acc + v, rest)),
    decreases v.len(),
{
    let s = esc_str(v) + seq!['"'] + rest;
    if v.len() == 0 {
        assert(esc_str(v) =~= Seq::<char>::empty());
        assert(s[0] == '"');
        assert(s.skip(1) =~= rest);
        assert(acc + v =~= acc);
    } else {
        let c = v[0];
        assert(esc_str(v) == esc_char(c) + esc_str(v.skip(1)));
        if c == '"' || c == '\\' {
            assert(esc_char(c) == seq!['\\', c]);
            assert(s[0] == '\\');
            assert(s[1] == c);
            assert(s.len() >= 2);
            assert(s.skip(2) =~= esc_str(v.skip(1)) + seq!['"'] + rest);
            lemma_strbody_round(v.skip(1), acc.push(c), rest);
            assert(acc.push(c) + v.skip(1) =~= acc + v);
        } else {
            assert(esc_char(c) == seq![c]);
            assert(s[0] == c);
            assert(s.skip(1) =~= esc_str(v.skip(1)) + seq!['"'] + rest);
            lemma_strbody_round(v.skip(1), acc.push(c), rest);
            assert(acc.push(c) + v.skip(1) =~= acc + v);
        }
    }
}

proof fn lemma_quoted_round(v: Seq<char>, rest: Seq<char>)
    ensures
        sp_quoted(enc_quoted(v) + rest) == Some((v, rest)),
{
    let s = enc_quoted(v) + rest;
    assert(s.len() >= 1 && s[0] == '"');
    assert(s.skip(1) =~= esc_str(v) + seq!['"'] + rest);
    lemma_strbody_round(v, Seq::empty(), rest);
    assert(Seq::<char>::empty() + v =~= v);
}

proof fn lemma_dec_u32_props(n: nat)
    ensures
        dec_u32(n).len() >= 1,
        forall|i: int| 0 <= i < dec_u32(n).len() ==> is_digit(#[trigger] dec_u32(n)[i]),
        digits_val(dec_u32(n)) == n,
    decreases n,
{
    if n < 10 {
        assert(is_digit(digit_char(n)));
        assert(dec_u32(n).drop_last() =~= Seq::<char>::empty());
        assert(digits_val(Seq::<char>::empty()) == 0);
        assert(digit_val(digit_char(n)) == n);
    } else {
        lemma_dec_u32_props(n / 10);
        let d = dec_u32(n);
        assert(d == dec_u32(n / 10).push(digit_char(n % 10)));
        assert(d.drop_last() =~= dec_u32(n / 10));
        assert(d.last() == digit_char(n % 10));
        assert(digit_val(digit_char(n % 10)) == n % 10);
        assert(digits_val(d) == (n / 10) * 10 + n % 10);
        vstd::arithmetic::div_mod::lemma_fundamental_div_mod(n as int, 10);
    }
}

proof fn lemma_count_digits_exact(s: Seq<char>, k: int)
    requires
        0 <= k <= s.len(),
        forall|j: int| 0 <= j < k ==> is_digit(s[j]),
        k == s.len() || !is_digit(s[k]),
    ensures
        count_digits(s) == k,
    decreases k,
{
    if k > 0 {
        assert(is_digit(s[0]));
        assert forall|j: int| 0 <= j < k - 1 implies is_digit(s.skip(1)[j]) by {
            assert(s.skip(1)[j] == s[j + 1]);
        }
        if k - 1 < s.skip(1).len() {
            assert(s.skip(1)[k - 1] == s[k]);
        }
        lemma_count_digits_exact(s.skip(1), k - 1);
    }
}

proof fn lemma_count_digits_ge(s: Seq<char>, k: int)
    requires
        0 <= k <= s.len(),
        forall|j: int| 0 <= j < k ==> is_digit(s[j]),
    ensures
        count_digits(s) >= k,
    decreases k,
{
    lemma_count_digits_le(s);
    if k > 0 {
        assert(is_digit(s[0]));
        assert forall|j: int| 0 <= j < k - 1 implies is_digit(s.skip(1)[j]) by {
            assert(s.skip(1)[j] == s[j + 1]);
        }
        lemma_count_digits_ge(s.skip(1), k - 1);
        assert(count_digits(s) == 1 + count_digits(s.skip(1)));
    }
}

proof fn lemma_count_digits_le(s: Seq<char>)
    ensures
        0 <= count_digits(s) <= s.len(),
    decreases s.len(),
{
    if !(s.len() == 0 || !is_digit(s[0])) {
        lemma_count_digits_le(s.skip(1));
    }
}

proof fn lemma_digits_val_mono(s: Seq<char>, i: int, j: int)
    requires
        0 <= i <= j <= s.len(),
    ensures
        digits_val(s.take(j)) >= digits_val(s.take(i)),
    decreases j - i,
{
    if i < j {
        lemma_digits_val_mono(s, i, j - 1);
        assert(s.take(j).drop_last() =~= s.take(j - 1));
        assert(digits_val(s.take(j)) == digits_val(s.take(j - 1)) * 10 + digit_val(
            s.take(j).last(),
        ));
        assert(digits_val(s.take(j - 1)) * 10 >= digits_val(s.take(j - 1))) by (nonlinear_arith);
    }
}

proof fn lemma_u32_round(n: u32, rest: Seq<char>)
    requires
        rest.len() == 0 || !is_digit(rest[0]),
    ensures
        sp_u32(dec_u32(n as nat) + rest) == Some((n, rest)),
{
    let d = dec_u32(n as nat);
    lemma_dec_u32_props(n as nat);
    let s = d + rest;
    assert forall|j: int| 0 <= j < d.len() implies is_digit(s[j]) by {
        assert(s[j] == d[j]);
    }
    if d.len() < s.len() {
        assert(s[d.len() as int] == rest[0]);
    }
    lemma_count_digits_exact(s, d.len() as int);
    assert(s.take(d.len() as int) =~= d);
    assert(s.skip(d.len() as int) =~= rest);
    assert(digits_val(s.take(d.len() as int)) == n as nat);
}

proof fn lemma_bool_round(b: bool, rest: Seq<char>)
    ensures
        sp_bool(enc_bool(b) + rest) == Some((b, rest)),
{
    reveal_strlit("true");
    reveal_strlit("false");
    if b {
        lemma_sp_lit_round("true"@, rest);
    } else {
        let s = "false"@ + rest;
        assert(s[0] == 'f');
        if "true"@.len() <= s.len() && s.take("true"@.len() as int) == "true"@ {
            assert(s.take(4)[0] == 'f');
            assert(false);
        }
        lemma_sp_lit_round("false"@, rest);
    }
}

proof fn lemma_tags_items_round(tags: Seq<Seq<char>>, acc: Seq<Seq<char>>, rest: Seq<char>)
    requires
        tags.len() >= 1,
    ensures
        sp_tags_items(enc_tags_items(tags) + seq![']'] + rest, acc) == Some((acc + tags, rest)),
    decreases tags.len(),
{
    let s = enc_tags_items(tags) + seq![']'] + rest;
    if tags.len() == 1 {
        assert(enc_tags_items(tags) == enc_quoted(tags[0]));
        assert(s =~= enc_quoted(tags[0]) + (seq![']'] + rest));
        lemma_quoted_round(tags[0], seq![']'] + rest);
        let r = seq![']'] + rest;
        assert(r[0] == ']');
        assert(r.skip(1) =~= rest);
        assert(acc.push(tags[0]) =~= acc + tags);
    } else {
        let t0 = tags[0];
        let tl = enc_tags_items(tags.skip(1)) + seq![']'] + rest;
        assert(enc_tags_items(tags) == enc_quoted(t0) + seq![','] + enc_tags_items(tags.skip(1)));
        assert(s =~= enc_quoted(t0) + (seq![','] + tl));
        lemma_quoted_round(t0, seq![','] + tl);
        let r = seq![','] + tl;
        assert(r[0] == ',');
        assert(r.len() <= s.len());
        assert(r.skip(1) =~= tl);
        lemma_tags_items_round(tags.skip(1), acc.push(t0), rest);
        assert(acc.push(t0) + tags.skip(1) =~= acc + tags);
    }
}

proof fn lemma_tags_round(tags: Seq<Seq<char>>, rest: Seq<char>)
    ensures
        sp_tags(enc_tags(tags) + rest) == Some((tags, rest)),
{
    let s = enc_tags(tags) + rest;
    if tags.len() == 0 {
        assert(enc_tags_items(tags) =~= Seq::<char>::empty());
        assert(s.len() >= 2);
        assert(s[0] == '[');
        assert(s[1] == ']');
        assert(s.skip(2) =~= rest);
        assert(Seq::<Seq<char>>::empty() =~= tags);
    } else {
        assert(enc_tags_items(tags)[0] == enc_quoted(tags[0])[0]);
        assert(enc_quoted(tags[0])[0] == '"');
        assert(s[1] == enc_tags_items(tags)[0]);
        assert(s[0] == '[');
        assert(!(s.len() >= 2 && s[0] == '[' && s[1] == ']'));
        assert(s.skip(1) =~= enc_tags_items(tags) + seq![']'] + rest);
        lemma_tags_items_round(tags, Seq::empty(), rest);
        assert(Seq::<Seq<char>>::empty() + tags =~= tags);
    }
}

#[verifier::rlimit(50)]
proof fn lemma_session_round(v: SessionView, rest: Seq<char>)
    requires
        v.wf(),
    ensures
        sp_session(enc_session(v) + rest) == Some((v, rest)),
{
    reveal_strlit("{\"id\":");
    reveal_strlit(",\"task\":");
    reveal_strlit(",\"duration\":");
    reveal_strlit(",\"start_time\":");
    reveal_strlit(",\"end_time\":");
    reveal_strlit(",\"completed\":");
    reveal_strlit(",\"tags\":");
    reveal_strlit("}");
    let r14 = "}"@ + rest;
    let r13 = enc_tags(v.tags) + r14;
    let r12 = ",\"tags\":"@ + r13;
    let r11 = enc_bool(v.completed) + r12;
    let r10 = ",\"completed\":"@ + r11;
    let r9 = enc_quoted(v.end_time) + r10;
    let r8 = ",\"end_time\":"@ + r9;
    let r7 = enc_quoted(v.start_time) + r8;
    let r6 = ",\"start_time\":"@ + r7;
    let r5 = dec_u32(v.duration as nat) + r6;
    let r4 = ",\"duration\":"@ + r5;
    let r3 = enc_quoted(v.task) + r4;
    let r2 = ",\"task\":"@ + r3;
    let r1 = enc_quoted(v.id) + r2;
    let s = enc_session(v) + rest;
    assert(s =~= "{\"id\":"@ + r1);
    lemma_sp_lit_round("{\"id\":"@, r1);
    lemma_quoted_round(v.id, r2);
    lemma_sp_lit_round(",\"task\":"@, r3);
    lemma_quoted_round(v.task, r4);
    lemma_sp_lit_round(",\"duration\":"@, r5);
    assert(r6[0] == ',');
    assert(!is_digit(','));
    lemma_u32_round(v.duration, r6);
    lemma_sp_lit_round(",\"start_time\":"@, r7);
    lemma_quoted_round(v.start_time, r8);
    lemma_sp_lit_round(",\"end_time\":"@, r9);
    lemma_quoted_round(v.end_time, r10);
    lemma_sp_lit_round(",\"completed\":"@, r11);
    lemma_bool_round(v.completed, r12);
    lemma_sp_lit_round(",\"tags\":"@, r13);
    lemma_tags_round(v.tags, r14);
    lemma_sp_lit_round("}"@, rest);
    assert(sp_session(s) == Some((v, rest)));
}

#[verifier::rlimit(100)]
proof fn lemma_doc_items_round(l: Seq<SessionView>, acc: Seq<SessionView>, rest: Seq<char>)
    requires
        l.len() >= 1,
        forall|i: int| 0 <= i < l.len() ==> #[trigger] l[i].wf(),
    ensures
        sp_doc_items(enc_doc_items(l) + seq![']'] + rest, acc) == Some((acc + l, rest)),
    decreases l.len(),
{
    let s = enc_doc_items(l) + seq![']'] + rest;
    if l.len() == 1 {
        assert(enc_doc_items(l) == enc_session(l[0]));
        assert(s =~= enc_session(l[0]) + (seq![']'] + rest));
        lemma_session_round(l[0], seq![']'] + rest);
        let r = seq![']'] + rest;
        assert(r[0] == ']');
        assert(r.skip(1) =~= rest);
        assert(acc.push(l[0]) =~= acc + l);
    } else {
        let x0 = l[0];
        let tl = enc_doc_items(l.skip(1)) + seq![']'] + rest;
        assert(enc_doc_items(l) == enc_session(x0) + seq![','] + enc_doc_items(l.skip(1)));
        assert(s =~= enc_session(x0) + (seq![','] + tl));
        lemma_session_round(x0, seq![','] + tl);
        let r = seq![','] + tl;
        assert(r[0] == ',');
        assert(r.len() <= s.len());
        assert(r.skip(1) =~= tl);
        assert forall|i: int| 0 <= i < l.skip(1).len() implies #[trigger] l.skip(1)[i].wf() by {
            assert(l.skip(1)[i] == l[i + 1]);
        }
        lemma_doc_items_round(l.skip(1), acc.push(x0), rest);
        assert(acc.push(x0) + l.skip(1) =~= acc + l);
    }
}

// ---------------------------------------------------------------------------
// The executable parser: it implements the `sp_*` functions exactly.
// ---------------------------------------------------------------------------
fn expect_lit(v: &Vec<char>, pos: usize, lit: &str) -> (r: Option<usize>)
    requires
        pos <= v@.len(),
    ensures
        match r {
            Some(np) => pos <= np <= v@.len() && sp_lit(v@.skip(pos as int), lit@) == Some(
                v@.skip(np as int),
            ),
            None => sp_lit(v@.skip(pos as int), lit@) is None,
        },
{
    let n = lit.unicode_len();
    if v.len() - pos < n {
        proof {
            assert(v@.skip(pos as int).len() < lit@.len());
        }
        return None;
    }
    let mut i: usize = 0;
    while i < n
        invariant
            i <= n,
            n == lit@.len(),
            pos <= v@.len(),
            v@.len() <= usize::MAX,
            n <= v@.len() - pos,
            forall|j: int| 0 <= j < i ==> v@[pos + j] == lit@[j],
        decreases n - i,
    {
        let c = v[pos + i];
        let lc = lit.get_char(i);
        if c != lc {
            proof {
                let s = v@.skip(pos as int);
                assert(s.take(n as int)[i as int] == v@[pos + i]);
                assert(s.take(n as int) != lit@);
            }
            return None;
        }
        i += 1;
    }
    proof {
        let s = v@.skip(pos as int);
        assert(s.take(n as int) =~= lit@);
        assert(s.skip(n as int) =~= v@.skip(pos + n));
    }
    Some(pos + n)
}

fn parse_quoted(v: &Vec<char>, pos: usize) -> (r: Option<(String, usize)>)
    requires
        pos <= v@.len(),
    ensures
        match r {
            Some((out, np)) => pos < np <= v@.len() && sp_quoted(v@.skip(pos as int)) == Some(
                (out@, v@.skip(np as int)),
            ),
            None => sp_quoted(v@.skip(pos as int)) is None,
        },
{
    if pos == v.len() || v[pos] != '"' {
        return None;
    }
    let ghost start = v@.skip(pos as int + 1);
    proof {
        assert(v@.skip(pos as int)[0] == '"');
        assert(v@.skip(pos as int).skip(1) =~= start);
    }
    let mut acc = String::new();
    let mut i: usize = pos + 1;
    while i < v.len()
        invariant
            pos + 1 <= i <= v@.len(),
            start == v@.skip(pos as int + 1),
            sp_quoted(v@.skip(pos as int)) == sp_strbody(v@.skip(i as int), acc@),
        decreases v@.len() - i,
    {
        let c = v[i];
        proof {
            assert(v@.skip(i as int)[0] == c);
        }
        if c == '"' {
            proof {
                assert(v@.skip(i as int).skip(1) =~= v@.skip(i as int + 1));
            }
            return Some((acc, i + 1));
        } else if c == '\\' {
            if i + 1 < v.len() {
                let c2 = v[i + 1];
                proof {
                    assert(v@.skip(i as int)[1] == c2);
                    assert(v@.skip(i as int).len() >= 2);
                }
                if c2 == '"' || c2 == '\\' {
                    push_char(&mut acc, c2);
                    proof {
                        assert(v@.skip(i as int).skip(2) =~= v@.skip(i as int + 2));
                    }
                    i += 2;
                } else {
                    return None;
                }
            } else {
                proof {
                    assert(v@.skip(i as int).len() < 2);
                }
                return None;
            }
        } else {
            push_char(&mut acc, c);
            proof {
                assert(v@.skip(i as int).skip(1) =~= v@.skip(i as int + 1));
            }
            i += 1;
        }
    }
    proof {
        assert(v@.skip(i as int).len() == 0);
    }
    None
}

/// Index just past the run of decimal digits starting at `pos`.
fn scan_digits(v: &Vec<char>, pos: usize) -> (k: usize)
    requires
        pos <= v@.len(),
    ensures
        pos <= k <= v@.len(),
        count_digits(v@.skip(pos as int)) == k - pos,
        forall|j: int| pos <= j < k ==> is_digit(v@[j]),
    decreases v@.len() - pos,
{
    if pos == v.len() {
        return pos;
    }
    let c = v[pos];
    let cu = c as u32;
    proof {
        assert(v@.skip(pos as int)[0] == c);
    }
    if 48 <= cu && cu <= 57 {
        let k = scan_digits(v, pos + 1);
        proof {
            assert(v@.skip(pos as int).skip(1) =~= v@.skip(pos as int + 1));
        }
        k
    } else {
        pos
    }
}

fn parse_u32(v: &Vec<char>, pos: usize) -> (r: Option<(u32, usize)>)
    requires
        pos <= v@.len(),
    ensures
        match r {
            Some((n, np)) => pos < np <= v@.len() && sp_u32(v@.skip(pos as int)) == Some(
                (n, v@.skip(np as int)),
            ),
            None => sp_u32(v@.skip(pos as int)) is None,
        },
{
    let ghost s = v@.skip(pos as int);
    let k = scan_digits(v, pos);
    if k == pos {
        return None;
    }
    let mut i: usize = pos;
    let mut val: u64 = 0;
    proof {
        assert(s.take(0) =~= Seq::<char>::empty());
    }
    while i < k
        invariant
            pos <= i <= k <= v@.len(),
            s == v@.skip(pos as int),
            count_digits(s) == k - pos,
            forall|j: int| pos <= j < k ==> is_digit(v@[j]),
            val == digits_val(s.take(i - pos)),
            val <= u32::MAX,
        decreases k - i,
    {
        let c = v[i];
        let cu = c as u32;
        proof {
            assert(is_digit(v@[i as int]));
            assert(s[i - pos] == v@[i as int]);
            assert(s.take(i - pos + 1).drop_last() =~= s.take(i - pos));
            assert(s.take(i - pos + 1).last() == s[i - pos]);
            assert(digits_val(s.take(i - pos + 1)) == digits_val(s.take(i - pos)) * 10
                + digit_val(s[i - pos]));
        }
        let nv: u64 = val * 10 + (cu - 48) as u64;
        if nv > 0xffff_ffff {
            proof {
                lemma_digits_val_mono(s, i - pos + 1, k - pos);
                assert(digits_val(s.take(k - pos)) > u32::MAX);
            }
            return None;
        }
        val = nv;
        i += 1;
    }
    proof {
        assert(s.skip(k - pos) =~= v@.skip(k as int));
        assert(digits_val(s.take(k - pos)) == val);
    }
    Some((val as u32, k))
}

fn parse_bool(v: &Vec<char>, pos: usize) -> (r: Option<(bool, usize)>)
    requires
        pos <= v@.len(),
    ensures
        match r {
            Some((b, np)) => pos <= np <= v@.len() && sp_bool(v@.skip(pos as int)) == Some(
                (b, v@.skip(np as int)),
            ),
            None => sp_bool(v@.skip(pos as int)) is None,
        },
{
    match expect_lit(v, pos, "true") {
        Some(np) => Some((true, np)),
        None => match expect_lit(v, pos, "false") {
            Some(np) => Some((false, np)),
            None => None,
        },
    }
}

fn parse_tags(v: &Vec<char>, pos: usize) -> (r: Option<(Vec<String>, usize)>)
    requires
        pos <= v@.len(),
    ensures
        match r {
            Some((tags, np)) => pos < np <= v@.len() && sp_tags(v@.skip(pos as int)) == Some(
                (tags.deep_view(), v@.skip(np as int)),
            ),
            None => sp_tags(v@.skip(pos as int)) is None,
        },
{
    if pos == v.len() || v[pos] != '[' {
        proof {
            if pos < v@.len() {
                assert(v@.skip(pos as int)[0] == v@[pos as int]);
            }
        }
        return None;
    }
    proof {
        assert(v@.skip(pos as int)[0] == '[');
    }
    if pos + 1 < v.len() && v[pos + 1] == ']' {
        proof {
            assert(v@.skip(pos as int)[1] == ']');
            assert(v@.skip(pos as int).skip(2) =~= v@.skip(pos as int + 2));
        }
        let tags: Vec<String> = Vec::new();
        proof {
            assert(tags.deep_view() =~= Seq::<Seq<char>>::empty());
        }
        return Some((tags, pos + 2));
    }
    // not the empty list: parse one or more quoted tags
    proof {
        if pos + 1 < v@.len() {
            assert(v@.skip(pos as int)[1] == v@[pos + 1]);
        }
        assert(!(v@.skip(pos as int).len() >= 2 && v@.skip(pos as int)[0] == '['
            && v@.skip(pos as int)[1] == ']'));
        assert(v@.skip(pos as int).skip(1) =~= v@.skip(pos as int + 1));
    }
    let mut acc: Vec<String> = Vec::new();
    let mut i: usize = pos + 1;
    proof {
        assert(acc.deep_view() =~= Seq::<Seq<char>>::empty());
    }
    loop
        invariant
            pos + 1 <= i <= v@.len(),
            sp_tags(v@.skip(pos as int)) == sp_tags_items(v@.skip(i as int), acc.deep_view()),
        decreases v@.len() - i,
    {
        let q = parse_quoted(v, i);
        match q {
            None => {
                return None;
            },
            Some((t, np)) => {
                if np == v.len() {
                    proof {
                        assert(v@.skip(np as int).len() == 0);
                    }
                    return None;
                }
                let c = v[np];
                proof {
                    assert(v@.skip(np as int)[0] == c);
                }
                if c == ']' {
                    let ghost old_acc = acc.deep_view();
                    acc.push(t);
                    proof {
                        assert(acc.deep_view() =~= old_acc.push(t@));
                        assert(v@.skip(np as int).skip(1) =~= v@.skip(np as int + 1));
                    }
                    return Some((acc, np + 1));
                } else if c == ',' {
                    let ghost old_acc = acc.deep_view();
                    acc.push(t);
                    proof {
                        assert(acc.deep_view() =~= old_acc.push(t@));
                        assert(v@.skip(np as int).len() <= v@.skip(i as int).len());
                        assert(v@.skip(np as int).skip(1) =~= v@.skip(np as int + 1));
                    }
                    i = np + 1;
                } else {
                    return None;
                }
            },
        }
    }
}

#[verifier::rlimit(100)]
fn parse_session(v: &Vec<char>, pos: usize) -> (r: Option<(FocusSession, usize)>)
    requires
        pos <= v@.len(),
    ensures
        match r {
            Some((fs, np)) => pos < np <= v@.len() && sp_session(v@.skip(pos as int)) == Some(
                (fs@, v@.skip(np as int)),
            ) && fs.wf(),
            None => sp_session(v@.skip(pos as int)) is None,
        },
{
    let p1 = match expect_lit(v, pos, "{\"id\":") {
        Some(p) => p,
        None => {
            return None;
        },
    };
    let (id, p2) = match parse_quoted(v, p1) {
        Some(x) => x,
        None => {
            return None;
        },
    };
    let p3 = match expect_lit(v, p2, ",\"task\":") {
        Some(p) => p,
        None => {
            return None;
        },
    };
    let (task, p4) = match parse_quoted(v, p3) {
        Some(x) => x,
        None => {
            return None;
        },
    };
    let p5 = match expect_lit(v, p4, ",\"duration\":") {
        Some(p) => p,
        None => {
            return None;
        },
    };
    let (duration, p6) = match parse_u32(v, p5) {
        Some(x) => x,
        None => {
            return None;
        },
    };
    if duration < 1 {
        return None;
    }
    let p7 = match expect_lit(v, p6, ",\"start_time\":") {
        Some(p) => p,
        None => {
            return None;
        },
    };
    let (start_time, p8) = match parse_quoted(v, p7) {
        Some(x) => x,
        None => {
            return None;
        },
    };
    let p9 = match expect_lit(v, p8, ",\"end_time\":") {
        Some(p) => p,
        None => {
            return None;
        },
    };
    let (end_time, p10) = match parse_quoted(v, p9) {
        Some(x) => x,
        None => {
            return None;
        },
    };
    let p11 = match expect_lit(v, p10, ",\"completed\":") {
        Some(p) => p,
        None => {
            return None;
        },
    };
    let (completed, p12) = match parse_bool(v, p11) {
        Some(x) => x,
        None => {
            return None;
        },
    };
    let p13 = match expect_lit(v, p12, ",\"tags\":") {
        Some(p) => p,
        None => {
            return None;
        },
    };
    let (tags, p14) = match parse_tags(v, p13) {
        Some(x) => x,
        None => {
            return None;
        },
    };
    let p15 = match expect_lit(v, p14, "}") {
        Some(p) => p,
        None => {
            return None;
        },
    };
    let fs = FocusSession { id, task, duration, start_time, end_time, completed, tags };
    proof {
        assert(sp_session(v@.skip(pos as int)) == Some((fs@, v@.skip(p15 as int))));
    }
    Some((fs, p15))
}

/// Parse a whole export document; gives nothing unless the entire input is
/// one well-shaped record list.
pub fn parse_sessions(doc: &str) -> (r: Option<Vec<FocusSession>>)
    ensures
        match r {
            Some(list) => sp_doc(doc@) == Some(views(list@)) && forall|i: int|
                0 <= i < list@.len() ==> (#[trigger] list@[i]).wf(),
            None => sp_doc(doc@) is None,
        },
{
    let v = crate::text::str_to_chars(doc);
    if v.len() == 0 {
        return None;
    }
    if v[0] != '[' {
        return None;
    }
    if v.len() == 2 && v[1] == ']' {
        let list: Vec<FocusSession> = Vec::new();
        proof {
            assert(views(list@) =~= Seq::<SessionView>::empty());
        }
        return Some(list);
    }
    proof {
        assert(!(v@.len() == 2 && v@[0] == '[' && v@[1] == ']'));
        assert(v@.skip(1).skip(0) =~= v@.skip(1));
    }
    let mut acc: Vec<FocusSession> = Vec::new();
    let mut i: usize = 1;
    proof {
        assert(views(acc@) =~= Seq::<SessionView>::empty());
    }
    loop
        invariant
            1 <= i <= v@.len(),
            v@ == doc@,
            v@.len() >= 1,
            v@[0] == '[',
            !(v@.len() == 2 && v@[0] == '[' && v@[1] == ']'),
            sp_doc_items(v@.skip(1), Seq::<SessionView>::empty()) == sp_doc_items(
                v@.skip(i as int),
                views(acc@),
            ),
            forall|j: int| 0 <= j < acc@.len() ==> (#[trigger] acc@[j]).wf(),
        decreases v@.len() - i,
    {
        let s = parse_session(&v, i);
        match s {
            None => {
                return None;
            },
            Some((fs, np)) => {
                if np == v.len() {
                    proof {
                        assert(v@.skip(np as int).len() == 0);
                    }
                    return None;
                }
                let c = v[np];
                proof {
                    assert(v@.skip(np as int)[0] == c);
                }
                if c == ']' {
                    if np + 1 == v.len() {
                        let ghost old_views = views(acc@);
                        acc.push(fs);
                        proof {
                            assert(views(acc@) =~= old_views.push(fs@));
                            assert(v@.skip(np as int).skip(1) =~= v@.skip(np as int + 1));
                            assert(v@.skip(np as int + 1).len() == 0);
                        }
                        return Some(acc);
                    } else {
                        proof {
                            assert(v@.skip(np as int).skip(1) =~= v@.skip(np as int + 1));
                            assert(v@.skip(np as int + 1).len() > 0);
                        }
                        return None;
                    }
                } else if c == ',' {
                    let ghost old_views = views(acc@);
                    acc.push(fs);
                    proof {
                        assert(views(acc@) =~= old_views.push(fs@));
                        assert(v@.skip(np as int).len() <= v@.skip(i as int).len());
                        assert(v@.skip(np as int).skip(1) =~= v@.skip(np as int + 1));
                    }
                    i = np + 1;
                } else {
                    return None;
                }
            },
        }
    }
}

/// Parsing what [`encode_sessions`] wrote gives back exactly the encoded
/// session models: the export format round-trips field for field.
pub proof fn lemma_doc_round_trip(l: Seq<SessionView>)
    requires
        forall|i: int| 0 <= i < l.len() ==> #[trigger] l[i].wf(),
    ensures
        sp_doc(enc_doc(l)) == Some(l),
{
    let s = enc_doc(l);
    if l.len() == 0 {
        assert(enc_doc_items(l) =~= Seq::<char>::empty());
        assert(s.len() == 2);
        assert(s[0] == '[');
        assert(s[1] == ']');
    } else {
        reveal_strlit("{\"id\":");
        assert(enc_doc_items(l)[0] == enc_session(l[0])[0]);
        assert(enc_session(l[0])[0] == "{\"id\":"@[0]);
        assert(s[1] == '{');
        assert(!(s.len() == 2 && s[0] == '[' && s[1] == ']'));
        assert(s.len() >= 1 && s[0] == '[');
        assert(s.skip(1) =~= enc_doc_items(l) + seq![']'] + Seq::<char>::empty());
        lemma_doc_items_round(l, Seq::empty(), Seq::empty());
        assert(Seq::<SessionView>::empty() + l =~= l);
    }
}

} // verus!

