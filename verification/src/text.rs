//! Lines and excerpts of the loaded story text.
//!
//! The story panel shows a run of consecutive lines drawn at random from
//! the text asset. The text is kept as bytes; a line is what `str::lines`
//! would yield: the pieces between newline bytes, each stripped of one
//! trailing carriage return, with no final empty piece when the text ends
//! in a newline.

use vstd::prelude::*;

verus! {

/// The newline byte that separates lines.
pub const LINE_FEED: u8 = 10;

/// The carriage-return byte, stripped from the end of a line.
pub const CARRIAGE_RETURN: u8 = 13;

/// How many consecutive lines one story excerpt spans.
pub const EXCERPT_LINES: usize = 66;

/// The pieces of `t` between its newline bytes: one more piece than `t`
/// has newlines, so even empty text has one (empty) piece.
pub open spec fn raw_pieces(t: Seq<u8>) -> Seq<Seq<u8>>
    decreases t.len(),
{
    if t.len() == 0 {
        seq![Seq::<u8>::empty()]
    } else if t[0] == LINE_FEED {
        seq![Seq::<u8>::empty()] + raw_pieces(t.drop_first())
    } else {
        let rest = raw_pieces(t.drop_first());
        seq![seq![t[0]] + rest[0]] + rest.drop_first()
    }
}

proof fn lemma_raw_pieces_len(t: Seq<u8>)
    ensures
        raw_pieces(t).len() >= 1,
    decreases t.len(),
{
    if t.len() != 0 {
        lemma_raw_pieces_len(t.drop_first());
    }
}

/// A line with one trailing carriage return removed.
pub open spec fn strip_cr(l: Seq<u8>) -> Seq<u8> {
    if l.len() > 0 && l.last() == CARRIAGE_RETURN {
        l.drop_last()
    } else {
        l
    }
}

/// The lines of `t`, as `str::lines` yields them.
pub open spec fn line_seqs(t: Seq<u8>) -> Seq<Seq<u8>> {
    if t.len() == 0 {
        Seq::empty()
    } else if t.last() == LINE_FEED {
        raw_pieces(t).drop_last().map_values(|l: Seq<u8>| strip_cr(l))
    } else {
        raw_pieces(t).map_values(|l: Seq<u8>| strip_cr(l))
    }
}

/// Removes one trailing carriage return from a finished line.
fn stripped(line: Vec<u8>) -> (r: Vec<u8>)
    ensures
        r@ == strip_cr(line@),
{
    let mut line = line;
    if line.len() > 0 && line[line.len() - 1] == CARRIAGE_RETURN {
        line.pop();
    }
    line
}

/// Splits the text into its lines.
pub fn split_lines(text: &Vec<u8>) -> (lines: Vec<Vec<u8>>)
    ensures
        lines.deep_view() == line_seqs(text@),
{
    let mut lines: Vec<Vec<u8>> = Vec::new();
    let mut cur: Vec<u8> = Vec::new();
    let ghost mut raw_done: Seq<Seq<u8>> = Seq::empty();
    let mut i: usize = 0;
    proof {
        lemma_raw_pieces_len(text@);
        assert(text@.skip(0) =~= text@);
        assert(raw_pieces(text@) =~~= raw_done + seq![cur@ + raw_pieces(text@.skip(0)).first()]
            + raw_pieces(text@.skip(0)).drop_first());
    }
    while i < text.len()
        invariant
            i <= text@.len(),
            lines.deep_view() == raw_done.map_values(|l: Seq<u8>| strip_cr(l)),
            raw_pieces(text@) == raw_done + seq![cur@ + raw_pieces(text@.skip(i as int)).first()]
                + raw_pieces(text@.skip(i as int)).drop_first(),
        decreases text@.len() - i,
    {
        let b = text[i];
        proof {
            lemma_raw_pieces_len(text@.skip(i as int + 1));
            assert(text@.skip(i as int).drop_first() =~= text@.skip(i as int + 1));
            assert(text@.skip(i as int).first() == b);
        }
        if b == LINE_FEED {
            let ghost finished = cur@;
            let done = stripped(cur);
            cur = Vec::new();
            lines.push(done);
            proof {
                let f = |l: Seq<u8>| strip_cr(l);
                assert(lines.deep_view() =~~= raw_done.map_values(f).push(strip_cr(finished)));
                assert(raw_done.map_values(f).push(strip_cr(finished)) =~~= raw_done.push(
                    finished).map_values(f));
                raw_done = raw_done.push(finished);
                assert(raw_pieces(text@) =~~= raw_done + seq![cur@ + raw_pieces(
                    text@.skip(i as int + 1)).first()] + raw_pieces(
                    text@.skip(i as int + 1)).drop_first());
            }
        } else {
            cur.push(b);
            proof {
                assert(raw_pieces(text@) =~~= raw_done + seq![cur@ + raw_pieces(
                    text@.skip(i as int + 1)).first()] + raw_pieces(
                    text@.skip(i as int + 1)).drop_first());
            }
        }
        i = i + 1;
    }
    proof {
        assert(text@.skip(text@.len() as int) =~= Seq::<u8>::empty());
        assert(raw_pieces(text@) =~~= raw_done.push(cur@));
    }
    if text.len() == 0 {
        proof {
            assert(lines.deep_view() =~= line_seqs(text@));
        }
        lines
    } else if text[text.len() - 1] == LINE_FEED {
        proof {
            assert(raw_pieces(text@).drop_last() =~~= raw_done);
            assert(lines.deep_view() =~~= line_seqs(text@));
        }
        lines
    } else {
        // the text did not end in a newline, so the last partial piece is a line
        let ghost finished = cur@;
        let done = stripped(cur);
        lines.push(done);
        proof {
            let f = |l: Seq<u8>| strip_cr(l);
            assert(lines.deep_view() =~~= raw_done.map_values(f).push(strip_cr(finished)));
            assert(raw_done.map_values(f).push(strip_cr(finished)) =~~= raw_done.push(
                finished).map_values(f));
            assert(lines.deep_view() =~~= line_seqs(text@));
        }
        lines
    }
}

/// The window of `count` lines of `s` that begins at `start`, clipped to
/// the end of `s`.
pub open spec fn clipped_window(s: Seq<Seq<u8>>, start: int, count: int) -> Seq<Seq<u8>> {
    s.subrange(
        start,
        if start + count <= s.len() {
            start + count
        } else {
            s.len() as int
        },
    )
}

/// The lines joined back into one text, with a single newline byte between
/// consecutive lines and none at the end.
pub open spec fn joined(lines: Seq<Seq<u8>>) -> Seq<u8>
    decreases lines.len(),
{
    if lines.len() == 0 {
        Seq::empty()
    } else if lines.len() == 1 {
        lines[0]
    } else {
        lines[0] + seq![LINE_FEED] + joined(lines.drop_first())
    }
}

proof fn lemma_joined_append(lines: Seq<Seq<u8>>, l: Seq<u8>)
    requires
        lines.len() >= 1,
    ensures
        joined(lines.push(l)) == joined(lines) + seq![LINE_FEED] + l,
    decreases lines.len(),
{
    if lines.len() == 1 {
        assert(lines.push(l).drop_first() =~~= seq![l]);
        assert(joined(seq![l]) == l);
    } else {
        assert(lines.push(l).drop_first() =~~= lines.drop_first().push(l));
        lemma_joined_append(lines.drop_first(), l);
        assert(joined(lines.push(l)) =~= joined(lines) + seq![LINE_FEED] + l);
    }
}

/// Appends the bytes of `line` to `out`.
fn push_bytes(out: &mut Vec<u8>, line: &Vec<u8>)
    ensures
        final(out)@ == old(out)@ + line@,
{
    let mut j: usize = 0;
    while j < line.len()
        invariant
            j <= line@.len(),
            out@ == old(out)@ + line@.take(j as int),
        decreases line@.len() - j,
    {
        out.push(line[j]);
        proof {
            assert(old(out)@ + line@.take(j as int + 1) =~= (old(out)@ + line@.take(
                j as int)).push(line@[j as int]));
        }
        j = j + 1;
    }
    proof {
        assert(line@.take(line@.len() as int) =~= line@);
    }
}

/// A copy of one line.
fn copy_line(line: &Vec<u8>) -> (r: Vec<u8>)
    ensures
        r@ == line@,
{
    let mut r: Vec<u8> = Vec::new();
    push_bytes(&mut r, line);
    proof {
        assert(Seq::<u8>::empty() + line@ =~= line@);
    }
    r
}

/// The window of `count` lines beginning at `start`, clipped to the end of
/// the text.
pub fn excerpt(lines: &Vec<Vec<u8>>, start: usize, count: usize) -> (ex: Vec<Vec<u8>>)
    requires
        start <= lines@.len(),
    ensures
        ex.deep_view() == clipped_window(lines.deep_view(), start as int, count as int),
{
    let end = if count >= lines.len() - start {
        lines.len()
    } else {
        start + count
    };
    let mut ex: Vec<Vec<u8>> = Vec::new();
    let mut i = start;
    proof {
        assert(ex.deep_view() =~~= lines.deep_view().subrange(start as int, start as int));
    }
    while i < end
        invariant
            start <= i <= end <= lines@.len(),
            end == (if start + count <= lines@.len() {
                start + count
            } else {
                lines@.len() as int
            }),
            ex.deep_view() == lines.deep_view().subrange(start as int, i as int),
        decreases end - i,
    {
        let line = copy_line(&lines[i]);
        proof {
            assert(line@ == lines@[i as int]@);
            assert(lines.deep_view()[i as int] == lines@[i as int]@);
        }
        let ghost prev = ex.deep_view();
        ex.push(line);
        proof {
            assert(ex.deep_view() =~~= prev.push(lines.deep_view()[i as int]));
            assert(lines.deep_view().subrange(start as int, i as int + 1)
                =~~= lines.deep_view().subrange(start as int, i as int).push(
                lines.deep_view()[i as int]));
        }
        i = i + 1;
    }
    ex
}

/// The lines joined back into one text with newline bytes between them.
pub fn join_lines(lines: &Vec<Vec<u8>>) -> (out: Vec<u8>)
    ensures
        out@ == joined(lines.deep_view()),
{
    let mut out: Vec<u8> = Vec::new();
    let mut i: usize = 0;
    while i < lines.len()
        invariant
            i <= lines@.len(),
            out@ == joined(lines.deep_view().take(i as int)),
        decreases lines@.len() - i,
    {
        proof {
            assert(lines.deep_view()[i as int] == lines@[i as int]@);
            assert(lines.deep_view().take(i as int + 1) =~~= lines.deep_view().take(
                i as int).push(lines.deep_view()[i as int]));
        }
        if i == 0 {
            push_bytes(&mut out, &lines[0]);
            proof {
                assert(joined(lines.deep_view().take(1)) == lines.deep_view()[0]);
                assert(out@ =~= lines.deep_view()[0]);
            }
        } else {
            out.push(LINE_FEED);
            push_bytes(&mut out, &lines[i]);
            proof {
                lemma_joined_append(
                    lines.deep_view().take(i as int),
                    lines.deep_view()[i as int],
                );
                assert(out@ =~= joined(lines.deep_view().take(i as int)) + seq![LINE_FEED]
                    + lines.deep_view()[i as int]);
            }
        }
        i = i + 1;
    }
    proof {
        assert(lines.deep_view().take(lines@.len() as int) =~~= lines.deep_view());
    }
    out
}

proof fn lemma_raw_pieces_no_nl(l: Seq<u8>)
    requires
        !l.contains(LINE_FEED),
    ensures
        raw_pieces(l) == seq![l],
    decreases l.len(),
{
    if l.len() > 0 {
        assert(l[0] != LINE_FEED);
        assert(!l.drop_first().contains(LINE_FEED)) by {
            if l.drop_first().contains(LINE_FEED) {
                let j = choose|j: int|
                    0 <= j < l.drop_first().len() && l.drop_first()[j] == LINE_FEED;
                assert(l[j + 1] == LINE_FEED);
            }
        }
        lemma_raw_pieces_no_nl(l.drop_first());
    }
    assert(raw_pieces(l) =~~= seq![l]);
}

proof fn lemma_raw_pieces_line_nl(l: Seq<u8>, rest: Seq<u8>)
    requires
        !l.contains(LINE_FEED),
    ensures
        raw_pieces(l + seq![LINE_FEED] + rest) == seq![l] + raw_pieces(rest),
    decreases l.len(),
{
    let t = l + seq![LINE_FEED] + rest;
    if l.len() == 0 {
        assert(t[0] == LINE_FEED);
        assert(t.drop_first() =~= rest);
        assert(raw_pieces(t) =~~= seq![l] + raw_pieces(rest));
    } else {
        assert(t[0] == l[0]);
        assert(t[0] != LINE_FEED);
        assert(!l.drop_first().contains(LINE_FEED)) by {
            if l.drop_first().contains(LINE_FEED) {
                let j = choose|j: int|
                    0 <= j < l.drop_first().len() && l.drop_first()[j] == LINE_FEED;
                assert(l[j + 1] == LINE_FEED);
            }
        }
        assert(t.drop_first() =~= l.drop_first() + seq![LINE_FEED] + rest);
        lemma_raw_pieces_line_nl(l.drop_first(), rest);
        lemma_raw_pieces_len(rest);
        assert(raw_pieces(t) =~~= seq![l] + raw_pieces(rest));
    }
}

proof fn lemma_joined_last(ls: Seq<Seq<u8>>)
    requires
        ls.len() > 0,
        ls.last().len() > 0,
    ensures
        joined(ls).len() > 0,
        joined(ls).last() == ls.last().last(),
    decreases ls.len(),
{
    if ls.len() > 1 {
        lemma_joined_last(ls.drop_first());
        assert(joined(ls).last() == joined(ls.drop_first()).last());
    }
}

/// Joining lines and splitting the result yields the lines back, provided
/// that no line contains a newline byte, that no line ends in a carriage
/// return, and that the last line is not empty.
pub proof fn lemma_lines_of_joined(ls: Seq<Seq<u8>>)
    requires
        ls.len() > 0,
        forall|i: int| 0 <= i < ls.len() ==> !(#[trigger] ls[i]).contains(LINE_FEED),
        forall|i: int|
            0 <= i < ls.len() ==> (#[trigger] ls[i]).len() > 0 ==> ls[i].last()
                != CARRIAGE_RETURN,
        ls.last().len() > 0,
    ensures
        line_seqs(joined(ls)) == ls,
    decreases ls.len(),
{
    let t = joined(ls);
    lemma_joined_last(ls);
    assert(!ls.last().contains(LINE_FEED));
    assert(t.last() != LINE_FEED) by {
        if t.last() == LINE_FEED {
            assert(ls.last()[ls.last().len() - 1] == LINE_FEED);
        }
    }
    if ls.len() == 1 {
        assert(t == ls[0]);
        lemma_raw_pieces_no_nl(ls[0]);
        assert(strip_cr(ls[0]) == ls[0]);
        assert(line_seqs(t) =~~= ls);
    } else {
        let rest = ls.drop_first();
        assert(ls.last() == rest.last());
        lemma_lines_of_joined(rest);
        lemma_joined_last(rest);
        assert(t =~= ls[0] + seq![LINE_FEED] + joined(rest));
        lemma_raw_pieces_line_nl(ls[0], joined(rest));
        assert(joined(rest).last() != LINE_FEED) by {
            if joined(rest).last() == LINE_FEED {
                assert(rest.last()[rest.last().len() - 1] == LINE_FEED);
            }
        }
        assert(line_seqs(joined(rest)) == raw_pieces(joined(rest)).map_values(
            |l: Seq<u8>| strip_cr(l),
        ));
        assert(strip_cr(ls[0]) == ls[0]);
        assert(line_seqs(t) =~~= (seq![ls[0]] + raw_pieces(joined(rest))).map_values(
            |l: Seq<u8>| strip_cr(l),
        ));
        assert((seq![ls[0]] + raw_pieces(joined(rest))).map_values(|l: Seq<u8>| strip_cr(l))
            =~~= seq![ls[0]] + raw_pieces(joined(rest)).map_values(|l: Seq<u8>| strip_cr(l)));
        assert(line_seqs(t) =~~= ls);
    }
}

/// Relies on rand::Rng::gen_range over `0..n` on the thread-local
/// generator: it returns a value of the range, and the range is nonempty.
#[verifier::external_body]
fn random_below(n: usize) -> (r: usize)
    requires
        0 < n,
    ensures
        r < n,
{
    rand::Rng::gen_range(&mut rand::thread_rng(), 0..n)
}

/// A story excerpt: a run of `EXCERPT_LINES` consecutive lines of the
/// text, joined with newlines, beginning at a line drawn at random. The
/// run is clipped at the text's end, and there is no excerpt at all when
/// the text has no lines.
pub fn random_excerpt(text: &Vec<u8>) -> (ex: Option<Vec<u8>>)
    ensures
        ex is Some <==> line_seqs(text@).len() > 0,
        ex matches Some(body) ==> exists|start: int|
            0 <= start < line_seqs(text@).len() && body@ == joined(
                clipped_window(line_seqs(text@), start, EXCERPT_LINES as int),
            ),
{
    let lines = split_lines(text);
    if lines.len() == 0 {
        return None;
    }
    let start = random_below(lines.len());
    let window = excerpt(&lines, start, EXCERPT_LINES);
    let body = join_lines(&window);
    proof {
        assert(0 <= (start as int) && (start as int) < line_seqs(text@).len() && body@ == joined(
            clipped_window(line_seqs(text@), start as int, EXCERPT_LINES as int),
        ));
    }
    Some(body)
}

} // verus!
