//! The tokenizer: program text splits at spaces into tokens, except that
//! a '.' at a token's edge re-joins what a space split, rebuilding the
//! original text of the run.

use vstd::prelude::*;

use crate::program::ParseError;
use crate::text::{chars_of, push_char};

verus! {

/// The pieces of `s` from position `from` on, split at every space, the
/// piece built so far in hand: consecutive spaces yield empty pieces,
/// which are kept, not collapsed.
pub open spec fn split_acc(s: Seq<char>, from: int, cur: Seq<char>) -> Seq<Seq<char>>
    decreases s.len() - from,
    when 0 <= from <= s.len()
{
    if from >= s.len() {
        seq![cur]
    } else if s[from] == ' ' {
        seq![cur] + split_acc(s, from + 1, Seq::empty())
    } else {
        split_acc(s, from + 1, cur.push(s[from]))
    }
}

/// The pieces of `s` between spaces, in order.
pub open spec fn split_spaces(s: Seq<char>) -> Seq<Seq<char>> {
    split_acc(s, 0, Seq::empty())
}

/// Pieces `from..to` joined with one space between each pair: exactly the
/// original text they were split from.
pub open spec fn join_pieces(ps: Seq<Seq<char>>, from: int, to: int) -> Seq<char>
    decreases to - from,
    when 0 <= from <= to <= ps.len()
{
    if to - from <= 0 {
        Seq::empty()
    } else if to - from == 1 {
        ps[from]
    } else {
        ps[from] + seq![' '] + join_pieces(ps, from + 1, to)
    }
}

/// Whether the escape rule extends a token that spans pieces `..k`: the
/// last piece taken ends in '.', or the piece after it begins with '.'.
pub open spec fn escape_continues(ps: Seq<Seq<char>>, k: int) -> bool
    recommends
        1 <= k <= ps.len(),
{
    (ps[k - 1].len() > 0 && ps[k - 1].last() == '.') || (k < ps.len() && ps[k].len() > 0
        && ps[k].first() == '.')
}

/// Extends a token that spans pieces `..k` while the escape rule asks for
/// more. While `absorbing`, the token still owes the escape a non-empty
/// piece and takes pieces until one comes; `None` when the program ends
/// inside an escape.
pub open spec fn absorb(ps: Seq<Seq<char>>, k: int, absorbing: bool) -> Option<int>
    decreases ps.len() - k, (if absorbing { 0int } else { 1int }),
    when 1 <= k <= ps.len()
{
    if absorbing {
        if k >= ps.len() {
            None
        } else if ps[k].len() > 0 {
            absorb(ps, k + 1, false)
        } else {
            absorb(ps, k + 1, true)
        }
    } else {
        if escape_continues(ps, k) {
            absorb(ps, k, true)
        } else {
            Some(k)
        }
    }
}

/// A token never shrinks while the escape rule extends it.
pub proof fn lemma_absorb_bounds(ps: Seq<Seq<char>>, k: int, absorbing: bool)
    requires
        1 <= k <= ps.len(),
    ensures
        match absorb(ps, k, absorbing) {
            Some(r) => k <= r <= ps.len(),
            None => true,
        },
    decreases ps.len() - k, (if absorbing { 0int } else { 1int }),
{
    if absorbing {
        if k < ps.len() {
            lemma_absorb_bounds(ps, k + 1, ps[k].len() == 0);
        }
    } else {
        if escape_continues(ps, k) {
            lemma_absorb_bounds(ps, k, true);
        }
    }
}

#[via_fn]
proof fn tokens_from_decreases(ps: Seq<Seq<char>>, b: int) {
    if b < ps.len() {
        lemma_absorb_bounds(ps, b + 1, false);
    }
}

/// The tokens of a piece list from piece `b` on: each token is a maximal
/// escape-joined run of pieces, rebuilt as the original text of the run;
/// `None` when the program ends inside an escape.
pub open spec fn tokens_from(ps: Seq<Seq<char>>, b: int) -> Option<Seq<Seq<char>>>
    decreases ps.len() - b,
    when 0 <= b <= ps.len()
    via tokens_from_decreases
{
    if b >= ps.len() {
        Some(Seq::empty())
    } else {
        match absorb(ps, b + 1, false) {
            None => None,
            Some(k) => match tokens_from(ps, k) {
                None => None,
                Some(rest) => Some(seq![join_pieces(ps, b, k)] + rest),
            },
        }
    }
}

/// The logical tokens of a program text: split at spaces, escape-joined.
pub open spec fn tokenize(s: Seq<char>) -> Option<Seq<Seq<char>>> {
    tokens_from(split_spaces(s), 0)
}

/// The views of a vector of strings.
pub open spec fn string_views(v: Seq<String>) -> Seq<Seq<char>> {
    v.map_values(|t: String| t@)
}

/// Splits a program text into its logical tokens, re-joining tokens that
/// the '.' escape convention split at a space.
pub struct HomespringSplit<'a> {
    pub text: &'a str,
}

impl<'a> HomespringSplit<'a> {
    /// A tokenizer over the given program text.
    pub fn new(string: &'a str) -> (r: HomespringSplit<'a>)
        ensures
            r.text@ == string@,
    {
        HomespringSplit { text: string }
    }

    /// Every token of the text, in order; an error when the text ends
    /// inside an escape.
    pub fn tokens(&self) -> (r: Result<Vec<String>, ParseError>)
        ensures
            match r {
                Ok(v) => tokenize(self.text@) == Some(string_views(v@)),
                Err(e) => tokenize(self.text@) is None && e == ParseError::MalformedProgram,
            },
    {
        let chars = chars_of(self.text);
        let pieces = split_chars(&chars);
        let ghost ps = pieces_views(pieces@);
        proof {
            lemma_pieces_views(pieces@);
        }
        let n = pieces.len();
        let mut out: Vec<String> = Vec::new();
        let mut b: usize = 0;
        proof {
            assert(string_views(out@) =~= Seq::<Seq<char>>::empty());
        }
        while b < n
            invariant
                0 <= b <= n,
                n == pieces.len(),
                ps == pieces_views(pieces@),
                ps.len() == n,
                forall|i: int| 0 <= i < n ==> ps[i] == #[trigger] pieces@[i]@,
                tokenize(self.text@) == (match tokens_from(ps, b as int) {
                    Some(rest) => Some(string_views(out@) + rest),
                    None => None::<Seq<Seq<char>>>,
                }),
            decreases n - b,
        {
            let k = match self.absorb_run(&pieces, b) {
                Some(k) => k,
                None => {
                    return Err(ParseError::MalformedProgram);
                },
            };
            proof {
                lemma_absorb_bounds(ps, b + 1, false);
            }
            let token = join_run(&pieces, b, k);
            let ghost out0 = out@;
            out.push(token);
            proof {
                broadcast use Seq::lemma_push_map_commute;

                assert(string_views(out@) =~= string_views(out0).push(join_pieces(
                    ps,
                    b as int,
                    k as int,
                )));
                if tokens_from(ps, k as int) is Some {
                    assert(string_views(out0) + (seq![join_pieces(ps, b as int, k as int)]
                        + tokens_from(ps, k as int).unwrap()) =~= string_views(out@)
                        + tokens_from(ps, k as int).unwrap());
                }
            }
            b = k;
        }
        proof {
            assert(tokens_from(ps, n as int) == Some(Seq::<Seq<char>>::empty()));
            assert(string_views(out@) + Seq::<Seq<char>>::empty() =~= string_views(out@));
        }
        Ok(out)
    }

    /// The end of the escape-joined run of pieces that begins at `b`, or
    /// nothing when the text ends inside the escape.
    fn absorb_run(&self, pieces: &Vec<Vec<char>>, b: usize) -> (r: Option<usize>)
        requires
            b < pieces.len(),
        ensures
            match r {
                Some(k) => b < k <= pieces.len() && absorb(pieces_views(pieces@), b + 1, false)
                    == Some(k as int),
                None => absorb(pieces_views(pieces@), b + 1, false) is None,
            },
    {
        proof {
            lemma_pieces_views(pieces@);
        }
        let ghost ps = pieces_views(pieces@);
        let n = pieces.len();
        let mut k: usize = b + 1;
        let mut absorbing = false;
        let mut failed = false;
        loop
            invariant_except_break
                !failed,
            invariant
                b + 1 <= k <= n,
                n == pieces.len(),
                ps == pieces_views(pieces@),
                ps.len() == n,
                forall|i: int| 0 <= i < n ==> ps[i] == #[trigger] pieces@[i]@,
                absorb(ps, k as int, absorbing) == absorb(ps, b + 1, false),
            ensures
                b + 1 <= k <= n,
                absorb(ps, b + 1, false) == (if failed {
                    None::<int>
                } else {
                    Some(k as int)
                }),
            decreases n - k, (if absorbing { 0int } else { 1int }),
        {
            if absorbing {
                if k >= n {
                    failed = true;
                    break ;
                } else if pieces[k].len() > 0 {
                    k += 1;
                    absorbing = false;
                } else {
                    k += 1;
                }
            } else {
                let mut go = false;
                let last = &pieces[k - 1];
                if last.len() > 0 && last[last.len() - 1] == '.' {
                    go = true;
                } else if k < n {
                    let next = &pieces[k];
                    if next.len() > 0 && next[0] == '.' {
                        go = true;
                    }
                }
                proof {
                    assert(go == escape_continues(ps, k as int));
                }
                if go {
                    absorbing = true;
                } else {
                    break ;
                }
            }
        }
        if failed {
            None
        } else {
            Some(k)
        }
    }
}

/// The views of a vector of character vectors.
pub open spec fn pieces_views(v: Seq<Vec<char>>) -> Seq<Seq<char>> {
    v.map_values(|p: Vec<char>| p@)
}

pub proof fn lemma_pieces_views(v: Seq<Vec<char>>)
    ensures
        pieces_views(v).len() == v.len(),
        forall|i: int| 0 <= i < v.len() ==> pieces_views(v)[i] == #[trigger] v[i]@,
{
}

/// Splits the characters at every space, keeping empty pieces.
fn split_chars(chars: &Vec<char>) -> (pieces: Vec<Vec<char>>)
    ensures
        pieces_views(pieces@) == split_spaces(chars@),
{
    let s = chars;
    let n = s.len();
    let mut pieces: Vec<Vec<char>> = Vec::new();
    let mut cur: Vec<char> = Vec::new();
    let mut i: usize = 0;
    proof {
        assert(pieces_views(pieces@) =~= Seq::<Seq<char>>::empty());
        assert(Seq::<Seq<char>>::empty() + split_acc(s@, 0, Seq::empty()) =~= split_acc(
            s@,
            0,
            Seq::empty(),
        ));
        assert(cur@ =~= Seq::<char>::empty());
    }
    while i < n
        invariant
            0 <= i <= n,
            n == s@.len(),
            split_spaces(s@) == pieces_views(pieces@) + split_acc(s@, i as int, cur@),
        decreases n - i,
    {
        broadcast use Seq::lemma_push_map_commute;

        let c = s[i];
        if c == ' ' {
            let ghost p0 = pieces@;
            let ghost c0 = cur@;
            let done = cur;
            cur = Vec::new();
            pieces.push(done);
            proof {
                assert(cur@ =~= Seq::<char>::empty());
                assert(pieces_views(pieces@) =~= pieces_views(p0).push(c0));
                assert(split_acc(s@, i as int, c0) == seq![c0] + split_acc(
                    s@,
                    i + 1,
                    Seq::empty(),
                ));
                assert(pieces_views(p0) + (seq![c0] + split_acc(s@, i + 1, Seq::empty()))
                    =~= pieces_views(p0).push(c0) + split_acc(s@, i + 1, Seq::empty()));
            }
        } else {
            cur.push(c);
        }
        i += 1;
    }
    let ghost p0 = pieces@;
    let ghost c0 = cur@;
    pieces.push(cur);
    proof {
        broadcast use Seq::lemma_push_map_commute;

        assert(split_acc(s@, n as int, c0) =~= seq![c0]);
        assert(pieces_views(pieces@) =~= pieces_views(p0).push(c0));
        assert(pieces_views(p0) + seq![c0] =~= pieces_views(p0).push(c0));
    }
    pieces
}

/// The text of the run of pieces `b..k`, the split spaces restored.
fn join_run(pieces: &Vec<Vec<char>>, b: usize, k: usize) -> (token: String)
    requires
        b < k <= pieces.len(),
    ensures
        token@ == join_pieces(pieces_views(pieces@), b as int, k as int),
{
    proof {
        lemma_pieces_views(pieces@);
    }
    let ghost ps = pieces_views(pieces@);
    let mut token = String::new();
    let mut j: usize = b;
    proof {
        assert(token@ =~= join_pieces(ps, b as int, b as int));
    }
    while j < k
        invariant
            b <= j <= k <= pieces.len(),
            ps == pieces_views(pieces@),
            ps.len() == pieces.len(),
            forall|i: int| 0 <= i < ps.len() ==> ps[i] == #[trigger] pieces@[i]@,
            token@ == join_pieces(ps, b as int, j as int),
        decreases k - j,
    {
        if j > b {
            push_char(&mut token, ' ');
        }
        let piece = &pieces[j];
        let m = piece.len();
        let mut x: usize = 0;
        let ghost t0 = token@;
        while x < m
            invariant
                0 <= x <= m,
                m == piece@.len(),
                piece@ == pieces@[j as int]@,
                token@ == t0 + piece@.take(x as int),
            decreases m - x,
        {
            push_char(&mut token, piece[x]);
            proof {
                assert(t0 + piece@.take(x as int) + seq![piece@[x as int]] =~= t0 + piece@.take(
                    x + 1,
                ));
            }
            x += 1;
        }
        proof {
            assert(piece@.take(m as int) =~= piece@);
            lemma_join_snoc(ps, b as int, j as int);
        }
        j += 1;
    }
    token
}

/// Extending a joined run by one piece appends a space, except at the
/// run's first piece, and then the piece.
proof fn lemma_join_snoc(ps: Seq<Seq<char>>, b: int, j: int)
    requires
        0 <= b <= j < ps.len(),
    ensures
        join_pieces(ps, b, j + 1) == if j == b {
            join_pieces(ps, b, j) + ps[j]
        } else {
            join_pieces(ps, b, j) + seq![' '] + ps[j]
        },
    decreases j - b,
{
    if j == b {
        assert(join_pieces(ps, b, b) =~= Seq::<char>::empty());
        assert(join_pieces(ps, b, b + 1) == ps[b]);
        assert(Seq::<char>::empty() + ps[b] =~= ps[b]);
    } else {
        lemma_join_snoc(ps, b + 1, j);
        assert(join_pieces(ps, b, j + 1) == ps[b] + seq![' '] + join_pieces(ps, b + 1, j + 1));
        if j == b + 1 {
            assert(join_pieces(ps, b + 1, j) =~= Seq::<char>::empty());
            assert(join_pieces(ps, b, j) == ps[b]);
            assert(ps[b] + seq![' '] + (Seq::<char>::empty() + ps[j]) =~= join_pieces(ps, b, j)
                + seq![' '] + ps[j]);
            assert(join_pieces(ps, b + 1, j + 1) == ps[j]);
            assert(ps[b] + seq![' '] + ps[j] =~= join_pieces(ps, b, j) + seq![' '] + ps[j]);
        } else {
            assert(join_pieces(ps, b, j) == ps[b] + seq![' '] + join_pieces(ps, b + 1, j));
            assert(ps[b] + seq![' '] + (join_pieces(ps, b + 1, j) + seq![' '] + ps[j])
                =~= join_pieces(ps, b, j) + seq![' '] + ps[j]);
        }
    }
}

} // verus!
