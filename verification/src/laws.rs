//! What holds of the parser as a whole.
use crate::cursor::length_ok;
use crate::ending::{flagged, lemma_finished_flagged};
use crate::history::{
    lemma_document_closed_carried, lemma_inlines_processed_carried, lemma_line_read_carried,
    references_kept,
};
use crate::model::{
    ends_with_cr, line_count, line_stop, lines_fit, one_line, piece_end, piece_stop, replacement,
    total_lines, ParserView,
};
use crate::nodes::ValueView;
use crate::preserved::{lemma_finalized, lemma_line_stop, lemma_line_stop_skip};
use crate::spine::{blocks_ok, lemma_ancestor_finalized};
use crate::strings::{byte_replaced, lemma_byte_replaced, line_end};
use crate::tree::{ancestor, lemma_ancestor_le, lemma_parent};
use vstd::prelude::*;
use vstd::utf8::{
    encode_scalar, last_continuation_byte, leading_byte_width_3, second_last_continuation_byte,
};

verus! {

/// The text ends in a zero byte, and the next one starts with a line end.
pub open spec fn zero_before_line_end(a: Seq<u8>, b: Seq<u8>) -> bool {
    a.len() > 0 && b.len() > 0 && a.last() == 0 && line_end(b[0])
}

/// What a piece of the text does not change.
proof fn lemma_line_completed(p: ParserView, text: Seq<u8>)
    ensures
        p.line_completed(text).last_buffer_ended_with_cr == p.last_buffer_ended_with_cr,
        p.line_completed(text).linebuf.len() == 0,
        references_kept(p.refmap, p.line_completed(text).refmap),
{
    let q = ParserView { linebuf: Seq::empty(), ..p };
    let s = p.linebuf + text;
    lemma_line_read_carried(q, s.push(10));
    lemma_line_read_carried(q, s);
}

/// The text up to the first line end or zero byte in a longer text.
proof fn lemma_line_stop_prefix(a: Seq<u8>, b: Seq<u8>, i: int)
    requires
        0 <= i <= a.len(),
    ensures
        line_stop(a, i) < a.len() ==> line_stop(a + b, i) == line_stop(a, i),
        line_stop(a, i) >= a.len() ==> line_stop(a, i) == a.len() && line_stop(a + b, i)
            == a.len() + line_stop(b, 0),
    decreases a.len() - i,
{
    if i < a.len() {
        assert((a + b)[i] == a[i]);
        if !line_end(a[i]) && a[i] != 0 {
            lemma_line_stop_prefix(a, b, i + 1);
        }
    } else {
        lemma_line_stop_skip(a + b, a.len() as int, 0);
        assert((a + b).skip(a.len() as int) =~= b);
    }
}

/// Where the pieces of a text end.
proof fn lemma_piece(s: Seq<u8>)
    requires
        s.len() > 0,
    ensures
        0 < piece_end(s) <= s.len(),
        0 <= line_stop(s, 0) <= piece_stop(s) <= piece_end(s),
{
    lemma_line_stop(s, 0);
}

/// A text can be cut in two anywhere, but between a zero byte and a line end.
proof fn lemma_text_fed_in_pieces(p: ParserView, a: Seq<u8>, b: Seq<u8>, eof: bool)
    requires
        !p.last_buffer_ended_with_cr,
        b.len() > 0,
        !zero_before_line_end(a, b),
    ensures
        p.text_fed(a, false).fed(b, eof) == p.text_fed(a + b, eof),
    decreases a.len(),
{
    let s = a + b;
    if a.len() == 0 {
        assert(s =~= b);
    } else {
        let e = line_stop(a, 0);
        lemma_piece(a);
        lemma_piece(s);
        lemma_piece(b);
        lemma_line_stop_prefix(a, b, 0);
        lemma_line_stop(a, 0);
        lemma_line_stop(b, 0);
        if e < a.len() {
            assert(s[e] == a[e]);
            assert(s.take(e) =~= a.take(e));
            lemma_line_completed(p, a.take(e));
            let q = p.piece_fed(a, false);
            let c = piece_end(a);
            assert(forall|k: int| 0 <= k < a.len() ==> s[k] == a[k]);
            assert(forall|k: int| a.len() <= k < s.len() ==> s[k] == b[k - a.len()]);
            if ends_with_cr(a) {
                assert(a.skip(c) =~= Seq::<u8>::empty());
                assert(q.text_fed(a.skip(c), false) == q);
                if b[0] == 10 {
                    assert(piece_end(s) == a.len() + 1);
                    assert(s.skip(piece_end(s)) =~= b.skip(1));
                } else {
                    assert(piece_end(s) == a.len());
                    assert(s.skip(piece_end(s)) =~= b);
                }
                assert(p.piece_fed(s, eof) == flagged(q, false));
            } else {
                assert(piece_stop(s) == piece_stop(a));
                assert(piece_end(s) == c);
                assert(s.skip(c) =~= a.skip(c) + b);
                assert(!ends_with_cr(s) || piece_stop(s) + 1 == s.len());
                assert(p.piece_fed(s, eof) == q);
                if a.skip(c).len() > 0 {
                    assert(a.skip(c).last() == a.last());
                }
                lemma_text_fed_in_pieces(q, a.skip(c), b, eof);
            }
        } else {
            let q = p.buffered(a);
            assert(a.skip(a.len() as int) =~= Seq::<u8>::empty());
            assert(q.text_fed(a.skip(a.len() as int), false) == q);
            assert(p.text_fed(a, false) == q);
            let d = line_stop(b, 0);
            assert(forall|k: int| a.len() <= k < s.len() ==> s[k] == b[k - a.len()]);
            assert(s.take(a.len() + d) =~= a + b.take(d));
            assert(p.linebuf + (a + b.take(d)) =~= (p.linebuf + a) + b.take(d));
            assert(p.linebuf + ((a + b.take(d)) + replacement()) =~= (p.linebuf + a) + (b.take(d)
                + replacement()));
            assert(p.linebuf + (a + b) =~= (p.linebuf + a) + b);
            assert(piece_stop(s) == a.len() + piece_stop(b));
            assert(piece_end(s) == a.len() + piece_end(b));
            assert(s.skip(piece_end(s)) =~= b.skip(piece_end(b)));
            assert(p.piece_fed(s, eof) == q.piece_fed(b, eof));
        }
    }
}

/// It does not matter in which pieces the input comes: two pieces, one after the other, do what
/// both of them do at once. The exception is a line end whose piece starts with it, where the
/// piece before ends in a zero byte.
pub proof fn law_fed_in_pieces(p: ParserView, a: Seq<u8>, b: Seq<u8>, eof: bool)
    requires
        a.len() > 0 || !p.last_buffer_ended_with_cr,
        b.len() > 0,
        !zero_before_line_end(a, b),
    ensures
        p.fed(a, false).fed(b, eof) == p.fed(a + b, eof),
{
    let q = flagged(p, false);
    lemma_text_fed_in_pieces(q, p.unread(a), b, eof);
    if p.last_buffer_ended_with_cr && a[0] == 10 {
        assert((a + b).skip(1) =~= a.skip(1) + b);
        assert((a + b)[0] == a[0]);
    } else if a.len() > 0 {
        assert((a + b)[0] == a[0]);
    }
}

/// The first definition of a label counts: whatever follows, a reference keeps its meaning.
pub proof fn law_first_definition_counts(p: ParserView, s: Seq<u8>, eof: bool)
    ensures
        references_kept(p.refmap, p.fed(s, eof).refmap),
        references_kept(p.refmap, p.finished().refmap),
{
    lemma_text_fed_references(flagged(p, false), p.unread(s), eof);
    let q = p.document_closed();
    lemma_document_closed_carried(p);
    lemma_inlines_processed_carried(q, 0, q.tree.len() as int);
}

proof fn lemma_text_fed_references(p: ParserView, s: Seq<u8>, eof: bool)
    ensures
        references_kept(p.refmap, p.text_fed(s, eof).refmap),
    decreases s.len(),
{
    if s.len() > 0 {
        lemma_piece(s);
        let q = p.piece_fed(s, eof);
        lemma_line_completed(p, s.take(line_stop(s, 0)));
        lemma_text_fed_references(q, s.skip(piece_end(s)), eof);
        assert(references_kept(p.refmap, q.refmap));
        assert(references_kept(q.refmap, p.text_fed(s, eof).refmap));
    }
}

/// A line may end in a line feed, in a carriage return, or in both: what follows it is read in
/// the same state.
pub proof fn law_line_ends_alike(p: ParserView, line: Seq<u8>, rest: Seq<u8>, eof: bool)
    requires
        one_line(line),
        rest.len() > 0,
        rest[0] != 10,
    ensures
        p.text_fed(line + seq![10u8] + rest, eof) == p.line_completed(line).text_fed(rest, eof),
        p.text_fed(line + seq![13u8] + rest, eof) == p.line_completed(line).text_fed(rest, eof),
        p.text_fed(line + seq![13u8, 10u8] + rest, eof) == p.line_completed(line).text_fed(
            rest,
            eof,
        ),
{
    let n = line.len() as int;
    let a = line + seq![10u8] + rest;
    let b = line + seq![13u8] + rest;
    let c = line + seq![13u8, 10u8] + rest;
    lemma_line_stop_at(line, seq![10u8] + rest, 0);
    lemma_line_stop_at(line, seq![13u8] + rest, 0);
    lemma_line_stop_at(line, seq![13u8, 10u8] + rest, 0);
    assert(a =~= line + (seq![10u8] + rest));
    assert(b =~= line + (seq![13u8] + rest));
    assert(c =~= line + (seq![13u8, 10u8] + rest));
    assert(a.take(n) =~= line);
    assert(b.take(n) =~= line);
    assert(c.take(n) =~= line);
    assert(b[n + 1] == rest[0]);
    assert(c[n + 1] == 10);
    assert(piece_end(a) == n + 1);
    assert(piece_end(b) == n + 1);
    assert(piece_end(c) == n + 2);
    assert(a.skip(n + 1) =~= rest);
    assert(b.skip(n + 1) =~= rest);
    assert(c.skip(n + 2) =~= rest);
}

/// A line stops where it ends, or at a zero byte.
proof fn lemma_line_stop_at(line: Seq<u8>, rest: Seq<u8>, i: int)
    requires
        one_line(line),
        0 <= i <= line.len(),
        rest.len() > 0,
        line_end(rest[0]) || rest[0] == 0,
    ensures
        line_stop(line + rest, i) == line.len(),
    decreases line.len() - i,
{
    let s = line + rest;
    if i < line.len() {
        assert(s[i] == line[i]);
        lemma_line_stop_at(line, rest, i + 1);
    } else {
        assert(s[i] == rest[0]);
    }
}

/// A text that goes like another one up to its first stop, and stops there, has the same one.
proof fn lemma_same_stop(s: Seq<u8>, r: Seq<u8>)
    requires
        line_stop(s, 0) < s.len(),
        line_stop(s, 0) < r.len(),
        s.take(line_stop(s, 0)) == r.take(line_stop(s, 0)),
        line_end(r[line_stop(s, 0)]) || r[line_stop(s, 0)] == 0,
    ensures
        line_stop(r, 0) == line_stop(s, 0),
{
    let e = line_stop(s, 0);
    lemma_line_stop(s, 0);
    assert forall|k: int| 0 <= k < e implies !line_end(#[trigger] r.take(e)[k]) && r.take(e)[k]
        != 0 by {
        assert(s.take(e)[k] == s[k]);
    }
    lemma_line_stop_at(r.take(e), r.skip(e), 0);
    assert(r.take(e) + r.skip(e) =~= r);
}

/// Line feeds made carriage returns with line feeds.
proof fn lemma_both_line_ends(p: ParserView, s: Seq<u8>, eof: bool)
    requires
        forall|k: int| 0 <= k < s.len() ==> s[k] != 13,
    ensures
        p.text_fed(byte_replaced(s, 10, seq![13u8, 10u8]), eof) == p.text_fed(s, eof),
    decreases s.len(),
{
    let w = seq![13u8, 10u8];
    let r = byte_replaced(s, 10, w);
    if s.len() > 0 {
        let e = line_stop(s, 0);
        lemma_line_stop(s, 0);
        lemma_piece(s);
        lemma_byte_replaced(s, 10, w, e);
        if e == s.len() {
            assert(byte_replaced(s.skip(e), 10, w) =~= Seq::<u8>::empty());
            assert(r =~= s);
        } else {
            let t = s.skip(e);
            let u = s.skip(e + 1);
            assert(t.skip(1) =~= u);
            assert(r.take(e) =~= s.take(e));
            lemma_same_stop(s, r);
            if s[e] == 0 && u.len() > 0 && u[0] == 10 {
                assert(u.skip(1) =~= s.skip(e + 2));
                assert(r.skip(e + 1) =~= byte_replaced(u, 10, w));
                assert(r.skip(e + 1).take(2) =~= w);
                assert(r[e + 1] == 13 && r[e + 2] == 10);
                assert(r.skip(e + 3) =~= byte_replaced(u.skip(1), 10, w));
            } else if s[e] == 0 {
                assert(r.skip(e + 1) =~= byte_replaced(u, 10, w));
                assert(u.len() > 0 ==> r[e + 1] == u[0]);
            } else {
                assert(r[e] == 13 && r[e + 1] == 10);
                assert(r.skip(e + 2) =~= byte_replaced(u, 10, w));
            }
            let rest = s.skip(piece_end(s));
            assert(r.skip(piece_end(r)) =~= byte_replaced(rest, 10, w));
            assert(p.piece_fed(r, eof) == p.piece_fed(s, eof));
            lemma_both_line_ends(p.piece_fed(s, eof), rest, eof);
        }
    }
}

/// Line feeds made carriage returns.
proof fn lemma_other_line_ends(p: ParserView, s: Seq<u8>, eof: bool)
    requires
        forall|k: int| 0 <= k < s.len() ==> s[k] != 13,
    ensures
        flagged(p.text_fed(byte_replaced(s, 10, seq![13u8]), eof), false) == flagged(
            p.text_fed(s, eof),
            false,
        ),
    decreases s.len(),
{
    let w = seq![13u8];
    let r = byte_replaced(s, 10, w);
    if s.len() > 0 {
        let e = line_stop(s, 0);
        lemma_line_stop(s, 0);
        lemma_piece(s);
        lemma_byte_replaced(s, 10, w, e);
        if e == s.len() {
            assert(byte_replaced(s.skip(e), 10, w) =~= Seq::<u8>::empty());
            assert(r =~= s);
        } else {
            let t = s.skip(e);
            let u = s.skip(e + 1);
            assert(t.skip(1) =~= u);
            assert(r.take(e) =~= s.take(e));
            assert(r.skip(e + 1) =~= byte_replaced(u, 10, w));
            assert(u.len() > 0 ==> r[e + 1] == byte_replaced(u, 10, w)[0]);
            lemma_same_stop(s, r);
            if s[e] == 0 && u.len() > 0 && u[0] == 10 {
                assert(u.skip(1) =~= s.skip(e + 2));
                assert(r[e + 1] == 13);
                assert(r.skip(e + 2) =~= byte_replaced(u.skip(1), 10, w));
                assert(u.len() > 1 ==> r[e + 2] == byte_replaced(u.skip(1), 10, w)[0]);
            }
            let rest = s.skip(piece_end(s));
            let q = p.piece_fed(s, eof);
            assert(piece_end(r) == piece_end(s));
            assert(r.skip(piece_end(r)) =~= byte_replaced(rest, 10, w));
            assert(flagged(p.piece_fed(r, eof), false) == flagged(q, false));
            if rest.len() > 0 {
                assert(p.piece_fed(r, eof) == q);
                lemma_other_line_ends(q, rest, eof);
            } else {
                let x = p.piece_fed(r, eof);
                assert(byte_replaced(rest, 10, w) =~= Seq::<u8>::empty());
                assert(x.text_fed(r.skip(piece_end(r)), eof) == x);
                assert(q.text_fed(rest, eof) == q);
            }
        }
    }
}

/// It does not matter how the lines of a text end: with every line feed replaced by a carriage
/// return and a line feed, or by a carriage return, the text gives the same document.
pub proof fn law_line_ends_replaced(p: ParserView, s: Seq<u8>, eof: bool)
    requires
        p.last_buffer_ended_with_cr && s.len() > 0 ==> s[0] != 10,
        forall|k: int| 0 <= k < s.len() ==> s[k] != 13,
    ensures
        p.fed(byte_replaced(s, 10, seq![13u8, 10u8]), eof) == p.fed(s, eof),
        flagged(p.fed(byte_replaced(s, 10, seq![13u8]), eof), false) == flagged(
            p.fed(s, eof),
            false,
        ),
        p.fed(byte_replaced(s, 10, seq![13u8]), eof).finished().tree == p.fed(
            s,
            eof,
        ).finished().tree,
{
    lemma_both_line_ends(flagged(p, false), s, eof);
    lemma_other_line_ends(flagged(p, false), s, eof);
    lemma_same_document(p.fed(byte_replaced(s, 10, seq![13u8]), eof), p.fed(s, eof));
}

/// Two states that differ in what they know of a carriage return give the same document.
proof fn lemma_same_document(p: ParserView, q: ParserView)
    requires
        flagged(p, false) == flagged(q, false),
    ensures
        p.finished().tree == q.finished().tree,
{
    lemma_finished_flagged(p, false);
    lemma_finished_flagged(q, false);
}

/// A line feed at the end of the text.
proof fn lemma_line_feed_added(p: ParserView, s: Seq<u8>)
    requires
        s.len() > 0,
        s.last() != 10,
    ensures
        flagged(p.text_fed(s.push(10), true), false) == flagged(p.text_fed(s, true), false),
        !line_end(s.last()) ==> p.text_fed(s.push(10), true) == p.text_fed(s, true),
    decreases s.len(),
{
    let r = s.push(10);
    let e = line_stop(s, 0);
    let c = piece_end(s);
    lemma_line_stop(s, 0);
    lemma_piece(s);
    lemma_piece(r);
    lemma_line_stop_prefix(s, seq![10u8], 0);
    assert(s + seq![10u8] =~= r);
    assert(r.take(e) =~= s.take(e));
    if e == s.len() {
        assert(s.skip(c) =~= Seq::<u8>::empty());
        assert(r.skip(piece_end(r)) =~= Seq::<u8>::empty());
        assert(p.piece_fed(r, true) == p.piece_fed(s, true));
    } else if c == s.len() {
        assert(piece_end(r) == c + 1);
        assert(s.skip(c) =~= Seq::<u8>::empty());
        assert(r.skip(c + 1) =~= Seq::<u8>::empty());
        let x = p.piece_fed(r, true);
        let y = p.piece_fed(s, true);
        assert(flagged(x, false) == flagged(y, false));
        assert(x.text_fed(r.skip(c + 1), true) == x);
        assert(y.text_fed(s.skip(c), true) == y);
    } else {
        assert(piece_end(r) == c);
        assert(r.skip(c) =~= s.skip(c).push(10));
        assert(s.skip(c).last() == s.last());
        assert(p.piece_fed(r, true) == p.piece_fed(s, true));
        lemma_line_feed_added(p.piece_fed(s, true), s.skip(c));
    }
}

/// The last line needs no end: a line feed behind a text that is not empty and does not end in
/// one changes nothing.
pub proof fn law_last_line_end(p: ParserView, s: Seq<u8>)
    requires
        s.len() > 0,
        s.last() != 10,
    ensures
        p.fed(s.push(10), true).finished().tree == p.fed(s, true).finished().tree,
        !line_end(s.last()) ==> p.fed(s.push(10), true) == p.fed(s, true),
{
    let u = p.unread(s);
    assert(s.push(10)[0] == s[0]);
    assert(p.unread(s.push(10)) =~= u.push(10));
    lemma_line_feed_added(flagged(p, false), u);
    lemma_same_document(p.fed(s.push(10), true), p.fed(s, true));
}

/// No zero byte of the text is directly followed by a line end.
pub open spec fn zeros_within_lines(s: Seq<u8>) -> bool {
    forall|k: int| 0 <= k < s.len() - 1 && #[trigger] s[k] == 0 ==> !line_end(s[k + 1])
}

proof fn lemma_zeros_replaced(p: ParserView, s: Seq<u8>)
    requires
        !p.last_buffer_ended_with_cr,
        zeros_within_lines(s),
    ensures
        p.text_fed(byte_replaced(s, 0, replacement()), false) == p.text_fed(s, false),
    decreases s.len(),
{
    let w = replacement();
    let r = byte_replaced(s, 0, w);
    if s.len() > 0 {
        let e = line_stop(s, 0);
        lemma_line_stop(s, 0);
        lemma_piece(s);
        lemma_byte_replaced(s, 0, w, e);
        if e == s.len() {
            assert(byte_replaced(s.skip(e), 0, w) =~= Seq::<u8>::empty());
            assert(r =~= s);
        } else {
            let t = s.skip(e);
            let u = s.skip(e + 1);
            assert(t.skip(1) =~= u);
            assert(r.take(e) =~= s.take(e));
            assert forall|k: int| 0 <= k < u.len() - 1 && #[trigger] u[k] == 0 implies !line_end(
                u[k + 1],
            ) by {
                assert(s[e + 1 + k] == u[k]);
            }
            if s[e] == 0 {
                let a = s.take(e) + w;
                let q = p.buffered(a);
                let v = byte_replaced(u, 0, w);
                assert(u.len() > 0 ==> !line_end(u[0]));
                assert(p.text_fed(s, false) == q.text_fed(u, false));
                assert(r =~= a + v);
                lemma_one_line_fed(p, a);
                lemma_zeros_replaced(q, u);
                if u.len() > 0 {
                    lemma_text_fed_in_pieces(p, a, v, false);
                    assert(q.fed(v, false) == q.text_fed(v, false));
                } else {
                    assert(v =~= Seq::<u8>::empty());
                    assert(r =~= a);
                }
            } else {
                assert(r.skip(e + 1) =~= byte_replaced(u, 0, w));
                assert(r[e] == s[e]);
                assert(u.len() > 0 ==> r[e + 1] == byte_replaced(u, 0, w)[0]);
                lemma_same_stop(s, r);
                let c = piece_end(s);
                let rest = s.skip(c);
                if c == e + 2 {
                    assert(u.skip(1) =~= rest);
                    assert(r.skip(c) =~= byte_replaced(rest, 0, w));
                }
                assert(piece_end(r) == c);
                assert(p.piece_fed(r, false) == p.piece_fed(s, false));
                lemma_line_completed(p, s.take(e));
                if rest.len() > 0 {
                    assert forall|k: int|
                        0 <= k < rest.len() - 1 && #[trigger] rest[k] == 0 implies !line_end(
                        rest[k + 1],
                    ) by {
                        assert(s[c + k] == rest[k]);
                    }
                    lemma_zeros_replaced(p.piece_fed(s, false), rest);
                } else {
                    assert(byte_replaced(rest, 0, w) =~= Seq::<u8>::empty());
                }
            }
        }
    }
}

/// A text without line ends and zero bytes waits for more.
proof fn lemma_one_line_fed(p: ParserView, s: Seq<u8>)
    requires
        s.len() > 0,
        one_line(s),
    ensures
        p.text_fed(s, false) == p.buffered(s),
{
    lemma_line_stop(s, 0);
    lemma_piece(s);
    let n = s.len() as int;
    assert(s.skip(n) =~= Seq::<u8>::empty());
    assert(line_stop(s, 0) == n);
    assert(p.buffered(s).text_fed(s.skip(n), false) == p.buffered(s));
}

/// The bytes that stand for a zero byte are those of U+FFFD.
proof fn lemma_replacement()
    ensures
        encode_scalar(0xfffd) == replacement(),
{
    assert(leading_byte_width_3(0xfffdu32) == 0xefu8) by (bit_vector);
    assert(second_last_continuation_byte(0xfffdu32) == 0xbfu8) by (bit_vector);
    assert(last_continuation_byte(0xfffdu32) == 0xbdu8) by (bit_vector);
    assert(encode_scalar(0xfffd) =~= replacement());
}

/// A zero byte stands for one U+FFFD and does not end the line: where no zero byte is directly
/// followed by a line end, the text with each of them replaced does the same.
pub proof fn law_zero_bytes(p: ParserView, s: Seq<u8>)
    requires
        zeros_within_lines(s),
    ensures
        p.fed(byte_replaced(s, 0, encode_scalar(0xfffd)), false) == p.fed(s, false),
        p.fed(byte_replaced(s, 0, encode_scalar(0xfffd)), true).finished() == p.fed(
            s,
            true,
        ).finished(),
{
    lemma_replacement();
    let r = byte_replaced(s, 0, replacement());
    let u = p.unread(s);
    if p.last_buffer_ended_with_cr && s.len() > 0 && s[0] == 10 {
        assert(r[0] == 10);
        assert(r.skip(1) =~= byte_replaced(u, 0, replacement()));
        assert forall|k: int| 0 <= k < u.len() - 1 && #[trigger] u[k] == 0 implies !line_end(
            u[k + 1],
        ) by {
            assert(s[k + 1] == u[k]);
        }
    } else if s.len() > 0 {
        assert(r[0] != 10 || s[0] == 10);
    }
    lemma_zeros_replaced(flagged(p, false), u);
    law_end_told_late(p, r);
    law_end_told_late(p, s);
}

/// It does not matter whether the end of the input is told with the last piece or by finishing.
pub proof fn law_end_told_late(p: ParserView, s: Seq<u8>)
    ensures
        p.fed(s, false).finished() == p.fed(s, true).finished(),
{
    lemma_end_told_late(flagged(p, false), p.unread(s));
}

proof fn lemma_end_told_late(p: ParserView, s: Seq<u8>)
    ensures
        p.text_fed(s, false).document_closed() == p.text_fed(s, true).document_closed(),
    decreases s.len(),
{
    if s.len() > 0 {
        lemma_piece(s);
        let c = piece_end(s);
        let e = line_stop(s, 0);
        if e < s.len() {
            assert(p.piece_fed(s, false) == p.piece_fed(s, true));
            lemma_end_told_late(p.piece_fed(s, false), s.skip(c));
        } else {
            assert(s.skip(c) =~= Seq::<u8>::empty());
            assert(s.take(e) =~= s);
            let a = p.buffered(s);
            let b = p.line_completed(s);
            assert(a.text_fed(s.skip(c), false) == a);
            assert(b.text_fed(s.skip(c), true) == b);
            assert(p.text_fed(s, false) == a);
            assert(p.text_fed(s, true) == b);
            lemma_line_completed(p, s);
            assert((p.linebuf + s) + Seq::<u8>::empty() =~= p.linebuf + s);
            assert(a.line_completed(Seq::empty()) == b);
        }
    }
}

/// The input in two pieces gives the same document as the input at once.
pub proof fn law_document_in_pieces(p: ParserView, a: Seq<u8>, b: Seq<u8>)
    requires
        a.len() > 0 || !p.last_buffer_ended_with_cr,
        b.len() > 0,
        !zero_before_line_end(a, b),
    ensures
        p.fed(a, false).fed(b, false).finished() == p.fed(a + b, true).finished(),
{
    law_fed_in_pieces(p, a, b, false);
    law_end_told_late(p, a + b);
}

/// A text has at most as many lines as bytes.
pub proof fn law_line_count(s: Seq<u8>, eof: bool)
    ensures
        line_count(s, eof) <= s.len(),
        total_lines(s) <= s.len(),
    decreases s.len(),
{
    if s.len() > 0 {
        lemma_piece(s);
        law_line_count(s.skip(piece_end(s)), eof);
    }
}

/// What a text that is fed whole leaves in the buffer is a line of its own.
pub proof fn lemma_total_lines(p: ParserView, s: Seq<u8>)
    requires
        p.linebuf.len() == 0,
    ensures
        p.text_fed(s, true).linebuf.len() > 0 ==> line_count(s, true) + 1 <= total_lines(s),
        line_count(s, true) <= total_lines(s),
{
    lemma_lines_left(p, s);
}

proof fn lemma_lines_left(p: ParserView, s: Seq<u8>)
    ensures
        s.len() > 0 && p.text_fed(s, true).linebuf.len() > 0 ==> line_count(s, true) + 1
            <= total_lines(s),
        line_count(s, true) <= total_lines(s),
    decreases s.len(),
{
    if s.len() > 0 {
        lemma_piece(s);
        let q = p.piece_fed(s, true);
        let c = piece_end(s);
        lemma_lines_left(q, s.skip(c));
        lemma_line_completed(p, s.take(line_stop(s, 0)));
        lemma_line_stop(s, 0);
        if c == s.len() {
            assert(s.skip(c) =~= Seq::<u8>::empty());
            assert(q.text_fed(s.skip(c), true) == q);
        }
    }
}

/// No line is longer than the whole text, even where every byte of it is a zero byte.
pub proof fn law_lines_fit(n: int, s: Seq<u8>)
    requires
        0 <= n,
        length_ok(n + 3 * s.len() + 1),
    ensures
        lines_fit(n, s),
    decreases s.len(),
{
    if s.len() > 0 {
        lemma_piece(s);
        lemma_line_stop(s, 0);
        let e = line_stop(s, 0);
        let rest = s.skip(piece_end(s));
        if e < s.len() {
            law_lines_fit(
                if s[e] == 0 {
                    n + e + 3
                } else {
                    0
                },
                rest,
            );
        }
    }
}

/// A new block goes to the nearest place from `parent` upwards that may hold it.
pub proof fn law_nearest_place(p: ParserView, parent: usize, value: ValueView)
    requires
        p.ok(),
        blocks_ok(p.tree),
        parent < p.tree.len(),
    ensures
        ({
            let (q, place) = p.climbed(parent, value);
            &&& ancestor(p.tree, place, parent)
            &&& p.value(place).may_hold(value) || p.parent(place) is None
            &&& forall|a: usize| #[trigger]
                ancestor(p.tree, a, parent) && a > place ==> !p.value(a).may_hold(value)
                    && !q.tree[a as int].ast.open
        }),
    decreases parent,
{
    let (q, place) = p.climbed(parent, value);
    lemma_parent(p.tree, parent);
    assert(ancestor(p.tree, parent, parent));
    match p.parent(parent) {
        Some(above) => if !p.value(parent).may_hold(value) {
            let next = p.finalized(parent);
            lemma_finalized(p, parent);
            lemma_ancestor_finalized(p, parent);
            law_nearest_place(next, above, value);
            assert(ancestor(next.tree, place, above) == ancestor(p.tree, place, above));
            lemma_ancestor_le(p.tree, place, above);
            assert(next.tree[place as int].ast == p.tree[place as int].ast);
            assert(next.tree[place as int].parent == p.tree[place as int].parent);
            lemma_climbed_kept(next, above, value, parent);
            assert forall|a: usize| #[trigger]
                ancestor(p.tree, a, parent) && a > place implies !p.value(a).may_hold(value)
                && !q.tree[a as int].ast.open by {
                if a != parent {
                    assert(ancestor(next.tree, a, above) == ancestor(p.tree, a, above));
                    lemma_ancestor_le(p.tree, a, above);
                    assert(next.tree[a as int].ast == p.tree[a as int].ast);
                }
            }
        } else {
            assert forall|a: usize| #[trigger]
                ancestor(p.tree, a, parent) && a > place implies !p.value(a).may_hold(value)
                && !q.tree[a as int].ast.open by {
                lemma_ancestor_le(p.tree, a, parent);
            }
        },
        None => {
            assert forall|a: usize| #[trigger]
                ancestor(p.tree, a, parent) && a > place implies !p.value(a).may_hold(value)
                && !q.tree[a as int].ast.open by {
                lemma_ancestor_le(p.tree, a, parent);
            }
        },
    }
}

/// Blocks with a greater number are not touched on the way up.
proof fn lemma_climbed_kept(p: ParserView, parent: usize, value: ValueView, n: usize)
    requires
        p.ok(),
        parent < n < p.tree.len(),
    ensures
        p.climbed(parent, value).0.tree[n as int].ast == p.tree[n as int].ast,
    decreases parent,
{
    lemma_parent(p.tree, parent);
    if let Some(above) = p.parent(parent) {
        if !p.value(parent).may_hold(value) {
            lemma_finalized(p, parent);
            lemma_climbed_kept(p.finalized(parent), above, value, n);
            assert(p.finalized(parent).tree[n as int].ast == p.tree[n as int].ast);
        }
    }
}

/// At the end of a line, what it has left behind is closed: everything from the current block up
/// to `top`, which becomes the current block itself.
pub proof fn law_left_behind_closed(p: ParserView, top: usize)
    requires
        p.ok(),
        blocks_ok(p.tree),
        ancestor(p.tree, top, p.current),
    ensures
        p.closed_up_to(top).current == top,
        forall|a: usize| #[trigger]
            ancestor(p.tree, a, p.current) && a > top ==> !p.closed_up_to(
                top,
            ).tree[a as int].ast.open,
    decreases p.current,
{
    lemma_ancestor_le(p.tree, top, p.current);
    if p.current == top {
        assert forall|a: usize| #[trigger] ancestor(p.tree, a, p.current) && a > top implies
            !p.closed_up_to(top).tree[a as int].ast.open by {
            lemma_ancestor_le(p.tree, a, p.current);
        }
    } else {
        let x = p.current;
        lemma_parent(p.tree, x);
        let above = p.parent(x)->0;
        lemma_finalized(p, x);
        lemma_ancestor_finalized(p, x);
        let next = ParserView { current: above, ..p.finalized(x) };
        assert(ancestor(next.tree, top, above) == ancestor(p.tree, top, above));
        law_left_behind_closed(next, top);
        let q = next.closed_up_to(top);
        lemma_closed_kept(next, top, x);
        assert forall|a: usize| #[trigger] ancestor(p.tree, a, x) && a > top implies
            !q.tree[a as int].ast.open by {
            if a != x {
                assert(ancestor(next.tree, a, above) == ancestor(p.tree, a, above));
            }
        }
    }
}

/// Blocks with a greater number than the current one are not touched.
proof fn lemma_closed_kept(p: ParserView, top: usize, n: usize)
    requires
        p.ok(),
        p.current < n < p.tree.len(),
    ensures
        p.closed_up_to(top).tree[n as int].ast == p.tree[n as int].ast,
    decreases p.current,
{
    if p.current != top {
        lemma_parent(p.tree, p.current);
        if let Some(above) = p.parent(p.current) {
            lemma_finalized(p, p.current);
            let next = ParserView { current: above, ..p.finalized(p.current) };
            lemma_closed_kept(next, top, n);
            assert(p.finalized(p.current).tree[n as int].ast == p.tree[n as int].ast);
        }
    }
}

} // verus!
