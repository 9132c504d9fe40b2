//! Segmentation policy: word-wrapping of message text.
//!
//! Text longer than the segment width is split into lines no wider than the
//! width. Breaks happen at whitespace; a single word longer than the width is
//! hard-split into chunks of the width. Each line later becomes one wire
//! frame carrying the original message's timestamp.

use vstd::prelude::*;
use vstd::string::StrSliceExecFns;
use crate::text::chars_of;
use crate::text::string_from_range;

verus! {

/// The whitespace characters at which text may be broken into words.
pub open spec fn is_space(c: char) -> bool {
    c == ' ' || c == '\n' || c == '\t' || c == '\r'
}

/// Views of a vector of strings, as a sequence of character sequences.
pub open spec fn views(v: Seq<String>) -> Seq<Seq<char>> {
    v.map_values(|s: String| s@)
}

/// Renderings of a sequence of lines, each given as its pieces.
pub open spec fn rendered(ls: Seq<Seq<Seq<char>>>) -> Seq<Seq<char>> {
    ls.map_values(|ps: Seq<Seq<char>>| join_sp(ps))
}

/// Accumulator form of splitting `s` into words: `cur` is the word being
/// read, `acc` the words already read, `i` the position reached.
pub open spec fn words_acc(s: Seq<char>, i: int, cur: Seq<char>, acc: Seq<Seq<char>>) -> Seq<
    Seq<char>,
>
    decreases s.len() - i,
{
    if i < 0 || i >= s.len() {
        if cur.len() > 0 {
            acc.push(cur)
        } else {
            acc
        }
    } else if is_space(s[i]) {
        if cur.len() > 0 {
            words_acc(s, i + 1, Seq::empty(), acc.push(cur))
        } else {
            words_acc(s, i + 1, cur, acc)
        }
    } else {
        words_acc(s, i + 1, cur.push(s[i]), acc)
    }
}

/// The words of `s`: its maximal runs of non-whitespace characters, in order.
pub open spec fn words_of(s: Seq<char>) -> Seq<Seq<char>> {
    words_acc(s, 0, Seq::empty(), Seq::empty())
}

/// Hard-split of one word into chunks of at most `max` characters; only the
/// last chunk may be shorter.
pub open spec fn chunk_word(w: Seq<char>, max: nat) -> Seq<Seq<char>>
    decreases w.len(),
{
    if max == 0 || w.len() <= max {
        seq![w]
    } else {
        seq![w.take(max as int)] + chunk_word(w.skip(max as int), max)
    }
}

/// Hard-split applied to every word in order.
pub open spec fn chunk_all(ws: Seq<Seq<char>>, max: nat) -> Seq<Seq<char>>
    decreases ws.len(),
{
    if ws.len() == 0 {
        Seq::empty()
    } else {
        chunk_word(ws[0], max) + chunk_all(ws.drop_first(), max)
    }
}

/// The pieces of one output line joined by single spaces.
pub open spec fn join_sp(ps: Seq<Seq<char>>) -> Seq<char>
    decreases ps.len(),
{
    if ps.len() == 0 {
        Seq::empty()
    } else if ps.len() == 1 {
        ps[0]
    } else {
        ps[0] + seq![' '] + join_sp(ps.drop_first())
    }
}

/// Greedy line filling: pieces are packed left to right into lines whose
/// rendering stays within `max` characters. `cur` is the open line, `acc`
/// the finished ones; each line is kept as its list of pieces.
pub open spec fn fill_lines(
    ps: Seq<Seq<char>>,
    max: nat,
    cur: Seq<Seq<char>>,
    acc: Seq<Seq<Seq<char>>>,
) -> Seq<Seq<Seq<char>>>
    decreases ps.len(),
{
    if ps.len() == 0 {
        if cur.len() > 0 {
            acc.push(cur)
        } else {
            acc
        }
    } else if cur.len() == 0 {
        fill_lines(ps.drop_first(), max, seq![ps[0]], acc)
    } else if join_sp(cur).len() + 1 + ps[0].len() <= max {
        fill_lines(ps.drop_first(), max, cur.push(ps[0]), acc)
    } else {
        fill_lines(ps.drop_first(), max, seq![ps[0]], acc.push(cur))
    }
}

/// The wrapped form of `s` at width `max`: each element is one line, given
/// as the list of pieces (whole or hard-split words) the line carries.
pub open spec fn wrap_lines(s: Seq<char>, max: nat) -> Seq<Seq<Seq<char>>> {
    fill_lines(chunk_all(words_of(s), max), max, Seq::empty(), Seq::empty())
}

/// The rendered segments of `s` at width `max`. Text without any word still
/// yields a single empty segment, so every message produces at least one
/// frame.
pub open spec fn segments_spec(s: Seq<char>, max: nat) -> Seq<Seq<char>> {
    let lines = rendered(wrap_lines(s, max));
    if lines.len() == 0 {
        seq![Seq::<char>::empty()]
    } else {
        lines
    }
}

/// Executable test for [`is_space`].
pub fn is_space_char(c: char) -> (r: bool)
    ensures
        r == is_space(c),
{
    c == ' ' || c == '\n' || c == '\t' || c == '\r'
}

/// Chunking distributes over appending one word.
proof fn lemma_chunk_all_push(ws: Seq<Seq<char>>, w: Seq<char>, max: nat)
    ensures
        chunk_all(ws.push(w), max) == chunk_all(ws, max) + chunk_word(w, max),
    decreases ws.len(),
{
    if ws.len() == 0 {
        assert(ws.push(w)[0] == w);
        assert(ws.push(w).drop_first() =~= Seq::<Seq<char>>::empty());
        assert(chunk_all(Seq::<Seq<char>>::empty(), max) == Seq::<Seq<char>>::empty());
        assert(chunk_all(ws.push(w), max) =~= chunk_all(ws, max) + chunk_word(w, max));
    } else {
        assert(ws.push(w).drop_first() =~= ws.drop_first().push(w));
        lemma_chunk_all_push(ws.drop_first(), w, max);
        assert(chunk_all(ws.push(w), max) =~= chunk_all(ws, max) + chunk_word(w, max));
    }
}

/// Joining distributes over appending one piece.
proof fn lemma_join_push(ps: Seq<Seq<char>>, p: Seq<char>)
    ensures
        ps.len() == 0 ==> join_sp(ps.push(p)) == p,
        ps.len() > 0 ==> join_sp(ps.push(p)) == join_sp(ps) + seq![' '] + p,
    decreases ps.len(),
{
    if ps.len() == 0 {
        assert(join_sp(ps.push(p)) == ps.push(p)[0]);
    } else if ps.len() == 1 {
        assert(ps.push(p).drop_first() =~= seq![p]);
        assert(join_sp(seq![p]) == p);
        assert(join_sp(ps.push(p)) == ps[0] + seq![' '] + p);
    } else {
        assert(ps.push(p).drop_first() =~= ps.drop_first().push(p));
        lemma_join_push(ps.drop_first(), p);
    }
}

/// Views distribute over appending one string.
proof fn lemma_views_push(v: Seq<String>, s: String)
    ensures
        views(v.push(s)) == views(v).push(s@),
{
    assert(views(v.push(s)) =~= views(v).push(s@));
}

/// Rendering distributes over appending one line.
proof fn lemma_rendered_push(ls: Seq<Seq<Seq<char>>>, ps: Seq<Seq<char>>)
    ensures
        rendered(ls.push(ps)) == rendered(ls).push(join_sp(ps)),
{
    assert(rendered(ls.push(ps)) =~= rendered(ls).push(join_sp(ps)));
}

/// Splits `text` into its words, in order.
fn split_words(text: &str) -> (words: Vec<String>)
    ensures
        views(words@) == words_of(text@),
        forall|k: int| 0 <= k < words@.len() ==> (#[trigger] words@[k])@.len() >= 1,
{
    let cs = chars_of(text);
    let n: usize = cs.len();
    let mut words: Vec<String> = Vec::new();
    let mut i: usize = 0;
    let mut start: usize = 0;
    proof {
        assert(text@.subrange(0, 0) =~= Seq::<char>::empty());
        assert(views(words@) =~= Seq::<Seq<char>>::empty());
    }
    while i < n
        invariant
            cs@ == text@,
            text@.len() == n,
            start <= i <= n,
            forall|k: int| start <= k < i ==> !is_space(text@[k]),
            words_acc(text@, i as int, text@.subrange(start as int, i as int), views(words@))
                == words_of(text@),
            forall|k: int| 0 <= k < words@.len() ==> (#[trigger] words@[k])@.len() >= 1,
        decreases n - i,
    {
        let ghost s = text@;
        let ghost cur = text@.subrange(start as int, i as int);
        let ghost acc = views(words@);
        let c = cs[i];
        if is_space_char(c) {
            if i > start {
                let w = string_from_range(&cs, start, i);
                proof {
                    assert(cur.len() > 0);
                    assert(words_acc(s, i as int, cur, acc) == words_acc(
                        s,
                        i + 1,
                        Seq::empty(),
                        acc.push(cur),
                    ));
                    assert(views(words@.push(w)) =~= acc.push(cur));
                    assert(text@.subrange(i + 1, i + 1) =~= Seq::<char>::empty());
                }
                words.push(w);
            } else {
                proof {
                    assert(cur.len() == 0);
                    assert(words_acc(s, i as int, cur, acc) == words_acc(s, i + 1, cur, acc));
                    assert(text@.subrange(i + 1, i + 1) =~= cur);
                }
            }
            start = i + 1;
        } else {
            proof {
                assert(words_acc(s, i as int, cur, acc) == words_acc(
                    s,
                    i + 1,
                    cur.push(s[i as int]),
                    acc,
                ));
                assert(text@.subrange(start as int, i + 1) =~= cur.push(s[i as int]));
            }
        }
        i = i + 1;
    }
    let ghost s = text@;
    let ghost cur = text@.subrange(start as int, i as int);
    let ghost acc = views(words@);
    if start < n {
        let w = string_from_range(&cs, start, n);
        proof {
            assert(words_acc(s, n as int, cur, acc) == acc.push(cur));
            assert(views(words@.push(w)) =~= acc.push(cur));
        }
        words.push(w);
    } else {
        proof {
            assert(cur.len() == 0);
            assert(words_acc(s, n as int, cur, acc) == acc);
        }
    }
    words
}

/// Hard-splits every word into pieces of at most `max` characters.
fn chunk_pieces(words: &Vec<String>, max: usize) -> (pieces: Vec<String>)
    requires
        max >= 1,
        forall|k: int| 0 <= k < words@.len() ==> (#[trigger] words@[k])@.len() >= 1,
    ensures
        views(pieces@) == chunk_all(views(words@), max as nat),
        forall|k: int|
            0 <= k < pieces@.len() ==> 1 <= (#[trigger] pieces@[k])@.len() <= max,
{
    let mut pieces: Vec<String> = Vec::new();
    let mut wi: usize = 0;
    while wi < words.len()
        invariant
            max >= 1,
            wi <= words@.len(),
            forall|k: int| 0 <= k < words@.len() ==> (#[trigger] words@[k])@.len() >= 1,
            views(pieces@) == chunk_all(views(words@).take(wi as int), max as nat),
            forall|k: int|
                0 <= k < pieces@.len() ==> 1 <= (#[trigger] pieces@[k])@.len() <= max,
        decreases words@.len() - wi,
    {
        let ghost m = max as nat;
        let ghost done = views(words@).take(wi as int);
        let w = &words[wi];
        let ghost wv = w@;
        proof {
            assert(views(words@).take(wi + 1) =~= done.push(wv));
            lemma_chunk_all_push(done, wv, m);
        }
        let wl = w.unicode_len();
        if wl <= max {
            let wc = w.clone();
            proof {
                assert(chunk_word(wv, m) =~= seq![wv]);
                assert(views(pieces@.push(wc)) =~= views(pieces@).push(wv));
            }
            pieces.push(wc);
        } else {
            let wchars = chars_of(w.as_str());
            let mut j: usize = 0;
            proof {
                assert(wv.skip(0) =~= wv);
            }
            while wl - j > max
                invariant
                    max >= 1,
                    m == max as nat,
                    j < wl,
                    wl == wv.len(),
                    wv == w@,
                    wchars@ == wv,
                    views(pieces@) + chunk_word(wv.skip(j as int), max as nat) == chunk_all(
                        views(words@).take(wi + 1),
                        max as nat,
                    ),
                    forall|k: int|
                        0 <= k < pieces@.len() ==> 1 <= (#[trigger] pieces@[k])@.len() <= max,
                decreases wl - j,
            {
                let p = string_from_range(&wchars, j, j + max);
                proof {
                    let rest = wv.skip(j as int);
                    assert(rest.len() == wl - j);
                    assert(rest.len() > m);
                    assert(chunk_word(rest, m) == seq![rest.take(m as int)] + chunk_word(
                        rest.skip(m as int),
                        m,
                    ));
                    assert(rest.take(m as int) =~= wv.subrange(j as int, j + max));
                    assert(rest.skip(m as int) =~= wv.skip(j + max));
                    assert(p@ == wv.subrange(j as int, j + max));
                    assert(views(pieces@.push(p)) =~= views(pieces@).push(p@));
                    assert(views(pieces@).push(p@) + chunk_word(wv.skip(j + max), m) =~= views(
                        pieces@,
                    ) + chunk_word(rest, m));
                }
                pieces.push(p);
                j = j + max;
            }
            let p = string_from_range(&wchars, j, wl);
            proof {
                let rest = wv.skip(j as int);
                assert(rest.len() <= m);
                assert(rest.len() >= 1);
                assert(chunk_word(rest, m) == seq![rest]);
                assert(p@ == wv.subrange(j as int, wl as int));
                assert(rest =~= wv.subrange(j as int, wl as int));
                assert(views(pieces@.push(p)) =~= views(pieces@).push(p@));
                assert(views(pieces@).push(p@) =~= views(pieces@) + chunk_word(rest, m));
            }
            pieces.push(p);
        }
        wi = wi + 1;
    }
    proof {
        assert(views(words@).take(words@.len() as int) =~= views(words@));
    }
    pieces
}

/// Packs pieces greedily into rendered lines of at most `max` characters.
fn fill(pieces: &Vec<String>, max: usize) -> (lines: Vec<String>)
    requires
        max >= 1,
        forall|k: int|
            0 <= k < pieces@.len() ==> 1 <= (#[trigger] pieces@[k])@.len() <= max,
    ensures
        views(lines@) == rendered(
            fill_lines(views(pieces@), max as nat, Seq::empty(), Seq::empty()),
        ),
{
    let ghost m = max as nat;
    let ghost whole = views(pieces@);
    let mut lines: Vec<String> = Vec::new();
    let mut cur: String = String::new();
    let mut cur_len: usize = 0;
    let ghost mut curp: Seq<Seq<char>> = Seq::empty();
    let ghost mut accp: Seq<Seq<Seq<char>>> = Seq::empty();
    let mut pi: usize = 0;
    proof {
        assert(whole.skip(0) =~= whole);
        assert(join_sp(curp) =~= Seq::<char>::empty());
        assert(views(lines@) =~= Seq::<Seq<char>>::empty());
        assert(rendered(accp) =~= Seq::<Seq<char>>::empty());
    }
    while pi < pieces.len()
        invariant
            max >= 1,
            m == max as nat,
            whole == views(pieces@),
            pi <= pieces@.len(),
            forall|k: int|
                0 <= k < pieces@.len() ==> 1 <= (#[trigger] pieces@[k])@.len() <= max,
            fill_lines(whole.skip(pi as int), m, curp, accp) == fill_lines(
                whole,
                m,
                Seq::empty(),
                Seq::empty(),
            ),
            cur@ == join_sp(curp),
            cur_len == cur@.len(),
            cur@.len() <= max,
            (cur@.len() == 0) == (curp.len() == 0),
            views(lines@) == rendered(accp),
        decreases pieces@.len() - pi,
    {
        let ghost rest = whole.skip(pi as int);
        let p = &pieces[pi];
        let ghost pv = p@;
        proof {
            assert(rest[0] == pv);
            assert(rest.drop_first() =~= whole.skip(pi + 1));
        }
        let cur_l = cur_len;
        let p_l = p.unicode_len();
        if cur_l == 0 {
            proof {
                assert(fill_lines(rest, m, curp, accp) == fill_lines(
                    rest.drop_first(),
                    m,
                    seq![pv],
                    accp,
                ));
                lemma_join_push(Seq::empty(), pv);
                assert(seq![pv] =~= Seq::<Seq<char>>::empty().push(pv));
                curp = seq![pv];
            }
            cur = p.clone();
            cur_len = p_l;
        } else if max - cur_l > p_l {
            proof {
                assert(join_sp(curp).len() + 1 + rest[0].len() <= m);
                assert(fill_lines(rest, m, curp, accp) == fill_lines(
                    rest.drop_first(),
                    m,
                    curp.push(pv),
                    accp,
                ));
                lemma_join_push(curp, pv);
                reveal_strlit(" ");
                assert(" "@ =~= seq![' ']);
                curp = curp.push(pv);
            }
            cur.append(" ");
            cur.append(p.as_str());
            cur_len = cur_l + 1 + p_l;
        } else {
            proof {
                assert(!(join_sp(curp).len() + 1 + rest[0].len() <= m));
                assert(fill_lines(rest, m, curp, accp) == fill_lines(
                    rest.drop_first(),
                    m,
                    seq![pv],
                    accp.push(curp),
                ));
                lemma_views_push(lines@, cur);
                lemma_rendered_push(accp, curp);
                assert(views(lines@.push(cur)) == rendered(accp.push(curp)));
                lemma_join_push(Seq::empty(), pv);
                assert(seq![pv] =~= Seq::<Seq<char>>::empty().push(pv));
                accp = accp.push(curp);
                curp = seq![pv];
            }
            lines.push(cur);
            cur = p.clone();
            cur_len = p_l;
        }
        pi = pi + 1;
    }
    proof {
        assert(whole.skip(pieces@.len() as int) =~= Seq::<Seq<char>>::empty());
    }
    if cur_len > 0 {
        proof {
            assert(fill_lines(Seq::empty(), m, curp, accp) == accp.push(curp));
            lemma_views_push(lines@, cur);
            lemma_rendered_push(accp, curp);
            assert(views(lines@.push(cur)) == rendered(accp.push(curp)));
        }
        lines.push(cur);
    } else {
        proof {
            assert(fill_lines(Seq::empty(), m, curp, accp) == accp);
        }
    }
    lines
}

/// The chunks of one word concatenate back to the word: hard-splitting
/// loses nothing.
proof fn lemma_chunk_word_concat(w: Seq<char>, max: nat)
    ensures
        chunk_word(w, max).flatten() == w,
    decreases w.len(),
{
    if max == 0 || w.len() <= max {
        assert(chunk_word(w, max) == seq![w]);
        assert(seq![w].drop_first() =~= Seq::<Seq<char>>::empty());
        assert(Seq::<Seq<char>>::empty().flatten() == Seq::<char>::empty());
        assert(chunk_word(w, max).flatten() =~= w);
    } else {
        lemma_chunk_word_concat(w.skip(max as int), max);
        assert(chunk_word(w, max) == seq![w.take(max as int)] + chunk_word(w.skip(max as int), max));
        assert((seq![w.take(max as int)] + chunk_word(w.skip(max as int), max)).drop_first()
            =~= chunk_word(w.skip(max as int), max));
        assert(chunk_word(w, max).flatten() =~= w);
    }
}

/// Every chunk of a word stays within the width; chunks of a nonempty word
/// are nonempty.
proof fn lemma_chunk_word_bounds(w: Seq<char>, max: nat)
    requires
        max >= 1,
    ensures
        forall|k: int|
            0 <= k < chunk_word(w, max).len() ==> (#[trigger] chunk_word(w, max)[k]).len() <= max,
        w.len() >= 1 ==> forall|k: int|
            0 <= k < chunk_word(w, max).len() ==> (#[trigger] chunk_word(w, max)[k]).len() >= 1,
    decreases w.len(),
{
    if w.len() <= max {
    } else {
        lemma_chunk_word_bounds(w.skip(max as int), max);
        assert forall|k: int| 0 <= k < chunk_word(w, max).len() implies 1 <= (
        #[trigger] chunk_word(w, max)[k]).len() <= max by {
            if k > 0 {
                assert(chunk_word(w, max)[k] == chunk_word(w.skip(max as int), max)[k - 1]);
            }
        }
    }
}

/// Chunking all words concatenates back to the original words' characters.
proof fn lemma_chunk_all_concat(ws: Seq<Seq<char>>, max: nat)
    ensures
        chunk_all(ws, max).flatten() == ws.flatten(),
    decreases ws.len(),
{
    if ws.len() == 0 {
        assert(chunk_all(ws, max).flatten() =~= ws.flatten());
    } else {
        lemma_chunk_all_concat(ws.drop_first(), max);
        lemma_chunk_word_concat(ws[0], max);
        lemma_flatten_add(chunk_word(ws[0], max), chunk_all(ws.drop_first(), max));
        assert(ws.flatten() =~= ws[0] + ws.drop_first().flatten());
    }
}

/// Flattening distributes over concatenation.
proof fn lemma_flatten_add<A>(a: Seq<Seq<A>>, b: Seq<Seq<A>>)
    ensures
        (a + b).flatten() == a.flatten() + b.flatten(),
    decreases a.len(),
{
    if a.len() == 0 {
        assert(a + b =~= b);
        assert(a.flatten() + b.flatten() =~= b.flatten());
    } else {
        lemma_flatten_add(a.drop_first(), b);
        assert((a + b).drop_first() =~= a.drop_first() + b);
        assert((a + b)[0] == a[0]);
        assert(a[0] + (a.drop_first().flatten() + b.flatten()) =~= (a[0] + a.drop_first().flatten())
            + b.flatten());
    }
}

/// When every word already fits the width, chunking changes nothing.
proof fn lemma_chunk_all_id(ws: Seq<Seq<char>>, max: nat)
    requires
        forall|k: int| 0 <= k < ws.len() ==> (#[trigger] ws[k]).len() <= max,
    ensures
        chunk_all(ws, max) == ws,
    decreases ws.len(),
{
    if ws.len() == 0 {
        assert(chunk_all(ws, max) =~= ws);
    } else {
        assert(ws[0].len() <= max);
        lemma_chunk_all_id(ws.drop_first(), max);
        assert(chunk_word(ws[0], max) == seq![ws[0]]);
        assert(chunk_all(ws, max) =~= ws);
    }
}

/// Every chunk over all words stays within the width, and is nonempty when
/// every word is.
proof fn lemma_chunk_all_bounds(ws: Seq<Seq<char>>, max: nat)
    requires
        max >= 1,
        forall|k: int| 0 <= k < ws.len() ==> (#[trigger] ws[k]).len() >= 1,
    ensures
        forall|k: int|
            0 <= k < chunk_all(ws, max).len() ==> 1 <= (#[trigger] chunk_all(ws, max)[k]).len()
                <= max,
    decreases ws.len(),
{
    if ws.len() == 0 {
    } else {
        assert(ws[0] == ws[0]);
        lemma_chunk_word_bounds(ws[0], max);
        lemma_chunk_all_bounds(ws.drop_first(), max);
        let c0 = chunk_word(ws[0], max);
        let rest = chunk_all(ws.drop_first(), max);
        assert forall|k: int| 0 <= k < chunk_all(ws, max).len() implies 1 <= (
        #[trigger] chunk_all(ws, max)[k]).len() <= max by {
            if k < c0.len() {
                assert(chunk_all(ws, max)[k] == c0[k]);
            } else {
                assert(chunk_all(ws, max)[k] == rest[k - c0.len()]);
            }
        }
    }
}

/// Line filling loses no piece and invents none: the pieces of the produced
/// lines, in order, are the accumulated pieces followed by the input.
proof fn lemma_fill_content(ps: Seq<Seq<char>>, max: nat, cur: Seq<Seq<char>>, acc: Seq<
    Seq<Seq<char>>,
>)
    ensures
        fill_lines(ps, max, cur, acc).flatten() == acc.flatten() + cur + ps,
    decreases ps.len(),
{
    broadcast use Seq::lemma_flatten_push;

    if ps.len() == 0 {
        if cur.len() > 0 {
            assert(fill_lines(ps, max, cur, acc).flatten() =~= acc.flatten() + cur + ps);
        } else {
            assert(fill_lines(ps, max, cur, acc).flatten() =~= acc.flatten() + cur + ps);
        }
    } else if cur.len() == 0 {
        lemma_fill_content(ps.drop_first(), max, seq![ps[0]], acc);
        assert(acc.flatten() + seq![ps[0]] + ps.drop_first() =~= acc.flatten() + cur + ps);
    } else if join_sp(cur).len() + 1 + ps[0].len() <= max {
        lemma_fill_content(ps.drop_first(), max, cur.push(ps[0]), acc);
        assert(acc.flatten() + cur.push(ps[0]) + ps.drop_first() =~= acc.flatten() + cur + ps);
    } else {
        lemma_fill_content(ps.drop_first(), max, seq![ps[0]], acc.push(cur));
        assert(acc.push(cur).flatten() + seq![ps[0]] + ps.drop_first() =~= acc.flatten() + cur
            + ps);
    }
}

/// Every line produced by filling renders within the width.
proof fn lemma_fill_len(ps: Seq<Seq<char>>, max: nat, cur: Seq<Seq<char>>, acc: Seq<Seq<Seq<char>>>)
    requires
        max >= 1,
        forall|k: int| 0 <= k < ps.len() ==> (#[trigger] ps[k]).len() <= max,
        join_sp(cur).len() <= max,
        forall|k: int| 0 <= k < acc.len() ==> join_sp(#[trigger] acc[k]).len() <= max,
    ensures
        forall|k: int|
            0 <= k < fill_lines(ps, max, cur, acc).len() ==> join_sp(
                #[trigger] fill_lines(ps, max, cur, acc)[k],
            ).len() <= max,
    decreases ps.len(),
{
    if ps.len() == 0 {
    } else {
        assert(ps[0].len() <= max);
        assert(forall|k: int|
            0 <= k < ps.drop_first().len() ==> (#[trigger] ps.drop_first()[k]).len() <= max);
        if cur.len() == 0 {
            lemma_join_push(Seq::empty(), ps[0]);
            assert(seq![ps[0]] =~= Seq::<Seq<char>>::empty().push(ps[0]));
            lemma_fill_len(ps.drop_first(), max, seq![ps[0]], acc);
            assert(fill_lines(ps, max, cur, acc) == fill_lines(
                ps.drop_first(),
                max,
                seq![ps[0]],
                acc,
            ));
        } else if join_sp(cur).len() + 1 + ps[0].len() <= max {
            lemma_join_push(cur, ps[0]);
            lemma_fill_len(ps.drop_first(), max, cur.push(ps[0]), acc);
            assert(fill_lines(ps, max, cur, acc) == fill_lines(
                ps.drop_first(),
                max,
                cur.push(ps[0]),
                acc,
            ));
        } else {
            lemma_join_push(Seq::empty(), ps[0]);
            assert(seq![ps[0]] =~= Seq::<Seq<char>>::empty().push(ps[0]));
            lemma_fill_len(ps.drop_first(), max, seq![ps[0]], acc.push(cur));
            assert(fill_lines(ps, max, cur, acc) == fill_lines(
                ps.drop_first(),
                max,
                seq![ps[0]],
                acc.push(cur),
            ));
        }
    }
}

/// Filling a nonempty input produces at least one line.
proof fn lemma_fill_nonempty(ps: Seq<Seq<char>>, max: nat, cur: Seq<Seq<char>>, acc: Seq<
    Seq<Seq<char>>,
>)
    requires
        ps.len() > 0 || cur.len() > 0,
    ensures
        fill_lines(ps, max, cur, acc).len() > 0,
    decreases ps.len(),
{
    if ps.len() == 0 {
    } else if cur.len() == 0 {
        lemma_fill_nonempty(ps.drop_first(), max, seq![ps[0]], acc);
    } else if join_sp(cur).len() + 1 + ps[0].len() <= max {
        lemma_fill_nonempty(ps.drop_first(), max, cur.push(ps[0]), acc);
    } else {
        lemma_fill_nonempty(ps.drop_first(), max, seq![ps[0]], acc.push(cur));
    }
}

/// Every word of `s` is nonempty.
proof fn lemma_words_acc_nonempty(s: Seq<char>, i: int, cur: Seq<char>, acc: Seq<Seq<char>>)
    requires
        forall|k: int| 0 <= k < acc.len() ==> (#[trigger] acc[k]).len() >= 1,
    ensures
        forall|k: int|
            0 <= k < words_acc(s, i, cur, acc).len() ==> (#[trigger] words_acc(
                s,
                i,
                cur,
                acc,
            )[k]).len() >= 1,
    decreases s.len() - i,
{
    if i < 0 || i >= s.len() {
    } else if is_space(s[i]) {
        if cur.len() > 0 {
            lemma_words_acc_nonempty(s, i + 1, Seq::empty(), acc.push(cur));
            assert(words_acc(s, i, cur, acc) == words_acc(s, i + 1, Seq::empty(), acc.push(cur)));
        } else {
            lemma_words_acc_nonempty(s, i + 1, cur, acc);
            assert(words_acc(s, i, cur, acc) == words_acc(s, i + 1, cur, acc));
        }
    } else {
        lemma_words_acc_nonempty(s, i + 1, cur.push(s[i]), acc);
        assert(words_acc(s, i, cur, acc) == words_acc(s, i + 1, cur.push(s[i]), acc));
    }
}

/// A piece a line may carry: nonempty, with no whitespace inside.
pub open spec fn piece_ok(p: Seq<char>) -> bool {
    p.len() >= 1 && forall|m: int| 0 <= m < p.len() ==> !is_space(#[trigger] p[m])
}

/// Every element is a good piece.
pub open spec fn pieces_ok(ps: Seq<Seq<char>>) -> bool {
    forall|k: int| 0 <= k < ps.len() ==> piece_ok(#[trigger] ps[k])
}

/// Every line carries only good pieces.
pub open spec fn lines_ok(ls: Seq<Seq<Seq<char>>>) -> bool {
    forall|k: int| 0 <= k < ls.len() ==> pieces_ok(#[trigger] ls[k])
}

/// No word of `s` contains whitespace, and each is nonempty.
proof fn lemma_words_acc_space_free(s: Seq<char>, i: int, cur: Seq<char>, acc: Seq<Seq<char>>)
    requires
        forall|m: int| 0 <= m < cur.len() ==> !is_space(#[trigger] cur[m]),
        pieces_ok(acc),
    ensures
        pieces_ok(words_acc(s, i, cur, acc)),
    decreases s.len() - i,
{
    if i < 0 || i >= s.len() {
        if cur.len() > 0 {
            assert(piece_ok(cur));
            assert(pieces_ok(acc.push(cur)));
        }
    } else if is_space(s[i]) {
        if cur.len() > 0 {
            assert(piece_ok(cur));
            assert(pieces_ok(acc.push(cur)));
            lemma_words_acc_space_free(s, i + 1, Seq::empty(), acc.push(cur));
            assert(words_acc(s, i, cur, acc) == words_acc(s, i + 1, Seq::empty(), acc.push(cur)));
        } else {
            lemma_words_acc_space_free(s, i + 1, cur, acc);
            assert(words_acc(s, i, cur, acc) == words_acc(s, i + 1, cur, acc));
        }
    } else {
        lemma_words_acc_space_free(s, i + 1, cur.push(s[i]), acc);
        assert(words_acc(s, i, cur, acc) == words_acc(s, i + 1, cur.push(s[i]), acc));
    }
}

/// Chunking a good word yields good pieces.
proof fn lemma_chunk_word_ok(w: Seq<char>, max: nat)
    requires
        max >= 1,
        piece_ok(w),
    ensures
        pieces_ok(chunk_word(w, max)),
    decreases w.len(),
{
    if w.len() <= max {
    } else {
        assert(piece_ok(w.skip(max as int)));
        lemma_chunk_word_ok(w.skip(max as int), max);
        assert(piece_ok(w.take(max as int)));
        assert forall|k: int| 0 <= k < chunk_word(w, max).len() implies piece_ok(
            #[trigger] chunk_word(w, max)[k],
        ) by {
            if k > 0 {
                assert(chunk_word(w, max)[k] == chunk_word(w.skip(max as int), max)[k - 1]);
            }
        }
    }
}

/// Chunking good words yields good pieces throughout.
proof fn lemma_chunk_all_ok(ws: Seq<Seq<char>>, max: nat)
    requires
        max >= 1,
        pieces_ok(ws),
    ensures
        pieces_ok(chunk_all(ws, max)),
    decreases ws.len(),
{
    if ws.len() == 0 {
    } else {
        assert(piece_ok(ws[0]));
        lemma_chunk_word_ok(ws[0], max);
        lemma_chunk_all_ok(ws.drop_first(), max);
        let c0 = chunk_word(ws[0], max);
        assert forall|k: int| 0 <= k < chunk_all(ws, max).len() implies piece_ok(
            #[trigger] chunk_all(ws, max)[k],
        ) by {
            if k < c0.len() {
                assert(chunk_all(ws, max)[k] == c0[k]);
            } else {
                assert(chunk_all(ws, max)[k] == chunk_all(ws.drop_first(), max)[k - c0.len()]);
            }
        }
    }
}

/// Line filling hands out only pieces it was handed.
proof fn lemma_fill_ok(ps: Seq<Seq<char>>, max: nat, cur: Seq<Seq<char>>, acc: Seq<Seq<Seq<char>>>)
    requires
        pieces_ok(ps),
        pieces_ok(cur),
        lines_ok(acc),
    ensures
        lines_ok(fill_lines(ps, max, cur, acc)),
    decreases ps.len(),
{
    if ps.len() == 0 {
        if cur.len() > 0 {
            assert(lines_ok(acc.push(cur)));
        }
    } else {
        assert(piece_ok(ps[0]));
        assert(pieces_ok(ps.drop_first()));
        assert(pieces_ok(seq![ps[0]]));
        if cur.len() == 0 {
            lemma_fill_ok(ps.drop_first(), max, seq![ps[0]], acc);
            assert(fill_lines(ps, max, cur, acc) == fill_lines(
                ps.drop_first(),
                max,
                seq![ps[0]],
                acc,
            ));
        } else if join_sp(cur).len() + 1 + ps[0].len() <= max {
            assert(pieces_ok(cur.push(ps[0])));
            lemma_fill_ok(ps.drop_first(), max, cur.push(ps[0]), acc);
            assert(fill_lines(ps, max, cur, acc) == fill_lines(
                ps.drop_first(),
                max,
                cur.push(ps[0]),
                acc,
            ));
        } else {
            assert(lines_ok(acc.push(cur)));
            lemma_fill_ok(ps.drop_first(), max, seq![ps[0]], acc.push(cur));
            assert(fill_lines(ps, max, cur, acc) == fill_lines(
                ps.drop_first(),
                max,
                seq![ps[0]],
                acc.push(cur),
            ));
        }
    }
}

/// Word splitting looks only at the text from the current position on.
proof fn lemma_words_shift(s: Seq<char>, i: int, j: int, cur: Seq<char>, acc: Seq<Seq<char>>)
    requires
        0 <= i <= s.len(),
        0 <= j,
    ensures
        words_acc(s, i + j, cur, acc) == words_acc(s.skip(i), j, cur, acc),
    decreases s.len() - i - j,
{
    let t = s.skip(i);
    if i + j >= s.len() {
        assert(j >= t.len());
    } else {
        assert(t[j] == s[i + j]);
        if is_space(s[i + j]) {
            if cur.len() > 0 {
                lemma_words_shift(s, i, j + 1, Seq::empty(), acc.push(cur));
            } else {
                lemma_words_shift(s, i, j + 1, cur, acc);
            }
        } else {
            lemma_words_shift(s, i, j + 1, cur.push(s[i + j]), acc);
        }
    }
}

/// Words already collected stand unchanged in front of the rest.
proof fn lemma_words_acc_prefix(s: Seq<char>, i: int, cur: Seq<char>, acc: Seq<Seq<char>>)
    ensures
        words_acc(s, i, cur, acc) == acc + words_acc(s, i, cur, Seq::empty()),
    decreases s.len() - i,
{
    if i < 0 || i >= s.len() {
        if cur.len() > 0 {
            assert(acc.push(cur) =~= acc + Seq::<Seq<char>>::empty().push(cur));
        } else {
            assert(acc =~= acc + Seq::<Seq<char>>::empty());
        }
    } else if is_space(s[i]) {
        if cur.len() > 0 {
            lemma_words_acc_prefix(s, i + 1, Seq::empty(), acc.push(cur));
            lemma_words_acc_prefix(s, i + 1, Seq::empty(), Seq::<Seq<char>>::empty().push(cur));
            assert(acc.push(cur) + words_acc(s, i + 1, Seq::empty(), Seq::empty()) =~= acc + (
            Seq::<Seq<char>>::empty().push(cur) + words_acc(s, i + 1, Seq::empty(), Seq::empty())));
        } else {
            lemma_words_acc_prefix(s, i + 1, cur, acc);
        }
    } else {
        lemma_words_acc_prefix(s, i + 1, cur.push(s[i]), acc);
    }
}

/// Scanning one whitespace-free piece followed by a space closes exactly
/// that piece as a word.
proof fn lemma_words_scan_piece(
    s: Seq<char>,
    i: int,
    cur: Seq<char>,
    acc: Seq<Seq<char>>,
    w: Seq<char>,
    rest: Seq<char>,
)
    requires
        0 <= i <= s.len(),
        s.skip(i) == w + seq![' '] + rest,
        piece_ok(w),
    ensures
        words_acc(s, i, cur, acc) == words_acc(s, i + w.len() + 1, Seq::empty(), acc.push(cur + w)),
    decreases w.len(),
{
    assert(s.skip(i).len() == w.len() + 1 + rest.len());
    assert(s[i] == s.skip(i)[0]);
    assert(s[i] == w[0]);
    assert(!is_space(s[i]));
    if w.len() == 1 {
        assert(s[i + 1] == s.skip(i)[1]);
        assert(s[i + 1] == ' ');
        assert(words_acc(s, i, cur, acc) == words_acc(s, i + 1, cur.push(w[0]), acc));
        assert(words_acc(s, i + 1, cur.push(w[0]), acc) == words_acc(
            s,
            i + 2,
            Seq::empty(),
            acc.push(cur.push(w[0])),
        ));
        assert(cur.push(w[0]) =~= cur + w);
    } else {
        assert(words_acc(s, i, cur, acc) == words_acc(s, i + 1, cur.push(w[0]), acc));
        assert(s.skip(i + 1) =~= w.drop_first() + seq![' '] + rest) by {
            assert forall|m: int| 0 <= m < s.len() - i - 1 implies s.skip(i + 1)[m] == (
            w.drop_first() + seq![' '] + rest)[m] by {
                assert(s.skip(i + 1)[m] == s.skip(i)[m + 1]);
                assert(s.skip(i)[m + 1] == (w + seq![' '] + rest)[m + 1]);
            }
        }
        assert(piece_ok(w.drop_first()));
        lemma_words_scan_piece(s, i + 1, cur.push(w[0]), acc, w.drop_first(), rest);
        assert(cur.push(w[0]) + w.drop_first() =~= cur + w);
    }
}

/// Splitting the spaced join of good pieces recovers exactly the pieces.
proof fn lemma_words_of_join(ps: Seq<Seq<char>>)
    requires
        pieces_ok(ps),
        ps.len() >= 1,
    ensures
        words_of(join_sp(ps)) == ps,
    decreases ps.len(),
{
    let s = join_sp(ps);
    if ps.len() == 1 {
        assert(s == ps[0]);
        assert(piece_ok(ps[0]));
        lemma_words_acc_no_space(s, 0, Seq::empty(), Seq::empty());
        assert(Seq::<char>::empty() + s.skip(0) =~= s);
        assert(words_of(s) == Seq::<Seq<char>>::empty().push(s));
        assert(Seq::<Seq<char>>::empty().push(s) =~= ps);
    } else {
        let w = ps[0];
        let rest = ps.drop_first();
        let tail = join_sp(rest);
        assert(s == w + seq![' '] + tail);
        assert(s.skip(0) =~= w + seq![' '] + tail);
        assert(piece_ok(w));
        lemma_words_scan_piece(s, 0, Seq::empty(), Seq::empty(), w, tail);
        assert(Seq::<char>::empty() + w =~= w);
        assert(words_of(s) == words_acc(s, w.len() as int + 1, Seq::empty(), seq![w]));
        lemma_words_shift(s, w.len() as int + 1, 0, Seq::empty(), seq![w]);
        assert(s.skip(w.len() as int + 1) =~= tail) by {
            assert forall|m: int| 0 <= m < s.len() - w.len() - 1 implies s.skip(
                w.len() as int + 1,
            )[m] == tail[m] by {
                assert(s.skip(w.len() as int + 1)[m] == (w + seq![' '] + tail)[w.len() + 1 + m]);
            }
        }
        lemma_words_acc_prefix(tail, 0, Seq::empty(), seq![w]);
        assert(pieces_ok(rest));
        lemma_words_of_join(rest);
        assert(seq![w] + rest =~= ps);
    }
}

/// Every line that filling produces carries at least one piece.
proof fn lemma_fill_lines_nonempty(ps: Seq<Seq<char>>, max: nat, cur: Seq<Seq<char>>, acc: Seq<
    Seq<Seq<char>>,
>)
    requires
        forall|k: int| 0 <= k < acc.len() ==> (#[trigger] acc[k]).len() >= 1,
    ensures
        forall|k: int|
            0 <= k < fill_lines(ps, max, cur, acc).len() ==> (#[trigger] fill_lines(
                ps,
                max,
                cur,
                acc,
            )[k]).len() >= 1,
    decreases ps.len(),
{
    if ps.len() == 0 {
        if cur.len() > 0 {
            assert(forall|k: int| 0 <= k < acc.push(cur).len() ==> (#[trigger] acc.push(cur)[k]).len() >= 1);
        }
    } else if cur.len() == 0 {
        lemma_fill_lines_nonempty(ps.drop_first(), max, seq![ps[0]], acc);
        assert(fill_lines(ps, max, cur, acc) == fill_lines(ps.drop_first(), max, seq![ps[0]], acc));
    } else if join_sp(cur).len() + 1 + ps[0].len() <= max {
        lemma_fill_lines_nonempty(ps.drop_first(), max, cur.push(ps[0]), acc);
        assert(fill_lines(ps, max, cur, acc) == fill_lines(
            ps.drop_first(),
            max,
            cur.push(ps[0]),
            acc,
        ));
    } else {
        assert(forall|k: int| 0 <= k < acc.push(cur).len() ==> (#[trigger] acc.push(cur)[k]).len() >= 1);
        lemma_fill_lines_nonempty(ps.drop_first(), max, seq![ps[0]], acc.push(cur));
        assert(fill_lines(ps, max, cur, acc) == fill_lines(
            ps.drop_first(),
            max,
            seq![ps[0]],
            acc.push(cur),
        ));
    }
}

/// Hard-split soundness: wrapping emits exactly the hard-split chunks of the
/// words of `s`, in order, in lines that render within the width; even a word
/// wider than `max` is fully emitted, never dropped. (The chunks of each word
/// concatenate back to the word.) Splitting a rendered line back at its
/// spaces recovers exactly the pieces the line carries.
pub proof fn lemma_wrap_hard_split(s: Seq<char>, max: nat)
    requires
        max >= 1,
    ensures
        wrap_lines(s, max).flatten() == chunk_all(words_of(s), max),
        chunk_all(words_of(s), max).flatten() == words_of(s).flatten(),
        forall|k: int|
            0 <= k < wrap_lines(s, max).len() ==> join_sp(#[trigger] wrap_lines(s, max)[k]).len()
                <= max,
        words_of(s).len() > 0 ==> wrap_lines(s, max).len() > 0,
        forall|k: int|
            0 <= k < wrap_lines(s, max).len() ==> words_of(
                join_sp(#[trigger] wrap_lines(s, max)[k]),
            ) == wrap_lines(s, max)[k],
{
    let ws = words_of(s);
    let ps = chunk_all(ws, max);
    lemma_fill_content(ps, max, Seq::empty(), Seq::empty());
    assert(Seq::<Seq<Seq<char>>>::empty().flatten() =~= Seq::<Seq<char>>::empty());
    assert(Seq::<Seq<char>>::empty() + Seq::empty() + ps =~= ps);
    lemma_chunk_all_concat(ws, max);
    lemma_words_acc_nonempty(s, 0, Seq::empty(), Seq::empty());
    assert(forall|k: int| 0 <= k < ws.len() ==> (#[trigger] ws[k]).len() >= 1);
    lemma_chunk_all_bounds(ws, max);
    assert(join_sp(Seq::<Seq<char>>::empty()).len() <= max);
    lemma_fill_len(ps, max, Seq::empty(), Seq::empty());
    if ws.len() > 0 {
        assert(ps.len() >= chunk_word(ws[0], max).len() >= 1);
        lemma_fill_nonempty(ps, max, Seq::empty(), Seq::empty());
    }
    lemma_words_acc_space_free(s, 0, Seq::empty(), Seq::empty());
    assert(pieces_ok(ws));
    lemma_chunk_all_ok(ws, max);
    lemma_fill_ok(ps, max, Seq::empty(), Seq::empty());
    lemma_fill_lines_nonempty(ps, max, Seq::empty(), Seq::empty());
    let ls = wrap_lines(s, max);
    assert forall|k: int| 0 <= k < ls.len() implies words_of(join_sp(#[trigger] ls[k]))
        == ls[k] by {
        assert(pieces_ok(ls[k]));
        assert(ls[k].len() >= 1);
        lemma_words_of_join(ls[k]);
    }
}

/// Segmentation correctness for text whose words all fit the width: the
/// produced lines each render within the width, their pieces, in order,
/// are exactly the words of `s`, and splitting each produced segment back
/// at whitespace recovers those words — so joining the segments with
/// single separators reproduces the words of the original text in order.
pub proof fn lemma_wrap_words_exact(s: Seq<char>, max: nat)
    requires
        max >= 1,
        words_of(s).len() > 0,
        forall|k: int| 0 <= k < words_of(s).len() ==> (#[trigger] words_of(s)[k]).len() <= max,
    ensures
        wrap_lines(s, max).flatten() == words_of(s),
        segments_spec(s, max) == rendered(wrap_lines(s, max)),
        forall|k: int|
            0 <= k < segments_spec(s, max).len() ==> (#[trigger] segments_spec(s, max)[k]).len()
                <= max,
        forall|k: int|
            0 <= k < segments_spec(s, max).len() ==> words_of(
                #[trigger] segments_spec(s, max)[k],
            ) == wrap_lines(s, max)[k],
{
    lemma_chunk_all_id(words_of(s), max);
    lemma_wrap_hard_split(s, max);
    let ls = wrap_lines(s, max);
    assert(rendered(ls).len() == ls.len());
    assert(forall|k: int| 0 <= k < ls.len() ==> rendered(ls)[k] == join_sp(#[trigger] ls[k]));
}

/// Text without any whitespace is one single word.
proof fn lemma_words_acc_no_space(s: Seq<char>, i: int, cur: Seq<char>, acc: Seq<Seq<char>>)
    requires
        0 <= i <= s.len(),
        forall|m: int| i <= m < s.len() ==> !is_space(s[m]),
    ensures
        words_acc(s, i, cur, acc) == if cur.len() + (s.len() - i) > 0 {
            acc.push(cur + s.skip(i))
        } else {
            acc
        },
    decreases s.len() - i,
{
    if i >= s.len() {
        assert(cur + s.skip(i) =~= cur);
    } else {
        lemma_words_acc_no_space(s, i + 1, cur.push(s[i]), acc);
        assert(cur.push(s[i]) + s.skip(i + 1) =~= cur + s.skip(i));
        assert(words_acc(s, i, cur, acc) == words_acc(s, i + 1, cur.push(s[i]), acc));
    }
}

/// A single word that fits the width wraps to exactly one line: itself.
pub proof fn lemma_single_word_segment(t: Seq<char>, max: nat)
    requires
        max >= 1,
        1 <= t.len() <= max,
        forall|m: int| 0 <= m < t.len() ==> !is_space(t[m]),
    ensures
        segments_spec(t, max) == seq![t],
{
    lemma_words_acc_no_space(t, 0, Seq::empty(), Seq::empty());
    assert(Seq::<char>::empty() + t.skip(0) =~= t);
    assert(words_of(t) == Seq::<Seq<char>>::empty().push(t));
    assert(words_of(t) =~= seq![t]);
    assert(chunk_word(t, max) == seq![t]);
    assert(seq![t].drop_first() =~= Seq::<Seq<char>>::empty());
    assert(chunk_all(Seq::<Seq<char>>::empty(), max) == Seq::<Seq<char>>::empty());
    assert(chunk_all(seq![t], max) =~= seq![t]);
    assert(fill_lines(seq![t], max, Seq::empty(), Seq::empty()) == fill_lines(
        seq![t].drop_first(),
        max,
        seq![t],
        Seq::empty(),
    ));
    assert(fill_lines(Seq::<Seq<char>>::empty(), max, seq![t], Seq::empty())
        == Seq::<Seq<Seq<char>>>::empty().push(seq![t]));
    assert(wrap_lines(t, max) =~= seq![seq![t]]);
    assert(join_sp(seq![t]) == t);
    assert(rendered(seq![seq![t]]) =~= seq![t]);
}

/// Word-wraps `text` to lines of at most `max` characters, per the
/// segmentation policy. Text without any word yields one empty line.
pub fn segment(text: &str, max: usize) -> (r: Vec<String>)
    requires
        max >= 1,
    ensures
        views(r@) == segments_spec(text@, max as nat),
        r@.len() >= 1,
        forall|k: int| 0 <= k < r@.len() ==> (#[trigger] r@[k])@.len() <= max,
{
    let words = split_words(text);
    let pieces = chunk_pieces(&words, max);
    let mut lines = fill(&pieces, max);
    if lines.len() == 0 {
        let empty = String::new();
        proof {
            assert(views(lines@.push(empty)) =~= seq![Seq::<char>::empty()]);
        }
        lines.push(empty);
    }
    proof {
        lemma_wrap_hard_split(text@, max as nat);
        assert forall|k: int| 0 <= k < lines@.len() implies (#[trigger] lines@[k])@.len()
            <= max by {
            assert(lines@[k]@ == views(lines@)[k]);
            if segments_spec(text@, max as nat) == rendered(wrap_lines(text@, max as nat)) {
                assert(views(lines@)[k] == join_sp(wrap_lines(text@, max as nat)[k]));
            }
        }
    }
    lines
}

} // verus!
