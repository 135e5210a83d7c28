//! The protected-branch matcher.
//!
//! A list of ignore-style patterns is compiled once; branch names are then
//! tested against it. A pattern matches a whole name; `?` matches one
//! character other than `/`, `*` a run of characters without `/`, and `**`
//! any run. A leading `!` negates the pattern. Patterns apply in order and
//! the last one that matches decides; a name no pattern matches is not
//! protected.

use vstd::prelude::*;
use vstd::string::StrSliceExecFns;

use crate::error::Error;

verus! {

/// One compiled element of a pattern.
#[derive(Clone, Copy, Debug, PartialEq, Eq, Structural)]
pub enum Tok {
    /// A literal character, as its code point.
    Lit(u32),
    /// `?`: any one character except `/`.
    AnyOne,
    /// `*`: any run of characters without `/`.
    Star,
    /// `**`: any run of characters.
    StarStar,
}

/// Whether the token sequence matches the whole character sequence.
pub open spec fn toks_match(p: Seq<Tok>, s: Seq<char>) -> bool
    decreases p.len(), s.len(),
{
    if p.len() == 0 {
        s.len() == 0
    } else {
        match p[0] {
            Tok::Lit(c) => s.len() > 0 && (s[0] as u32) == c && toks_match(
                p.drop_first(),
                s.drop_first(),
            ),
            Tok::AnyOne => s.len() > 0 && s[0] != '/' && toks_match(
                p.drop_first(),
                s.drop_first(),
            ),
            Tok::Star => toks_match(p.drop_first(), s) || (s.len() > 0 && s[0] != '/'
                && toks_match(p, s.drop_first())),
            Tok::StarStar => toks_match(p.drop_first(), s) || (s.len() > 0 && toks_match(
                p,
                s.drop_first(),
            )),
        }
    }
}

/// The tokens of a pattern body: `**` greedily, then `*`, `?`, literals.
pub open spec fn spec_toks(cs: Seq<char>) -> Seq<Tok>
    decreases cs.len(),
{
    if cs.len() == 0 {
        Seq::empty()
    } else if cs[0] == '*' {
        if cs.len() > 1 && cs[1] == '*' {
            seq![Tok::StarStar] + spec_toks(cs.skip(2))
        } else {
            seq![Tok::Star] + spec_toks(cs.skip(1))
        }
    } else if cs[0] == '?' {
        seq![Tok::AnyOne] + spec_toks(cs.skip(1))
    } else {
        seq![Tok::Lit(cs[0] as u32)] + spec_toks(cs.skip(1))
    }
}

/// Whether a pattern body holds three stars in a row, which this matcher
/// rejects as malformed.
pub open spec fn has_triple_star(cs: Seq<char>) -> bool {
    exists|i: int|
        0 <= i && i + 2 < cs.len() && #[trigger] cs[i] == '*' && cs[i + 1] == '*' && cs[i + 2]
            == '*'
}

/// The negation flag and body of a raw pattern: a leading `!` negates.
pub open spec fn spec_body(cs: Seq<char>) -> (bool, Seq<char>) {
    if cs.len() > 0 && cs[0] == '!' {
        (true, cs.drop_first())
    } else {
        (false, cs)
    }
}

/// The compiled form of a raw pattern.
pub open spec fn spec_pattern(cs: Seq<char>) -> (bool, Seq<Tok>) {
    (spec_body(cs).0, spec_toks(spec_body(cs).1))
}

/// Whether the raw pattern is well-formed.
pub open spec fn pattern_ok(cs: Seq<char>) -> bool {
    !has_triple_star(spec_body(cs).1)
}

/// Whether the compiled pattern list declares this name protected: the
/// last pattern matching the name decides, negated patterns deciding
/// against; with no match the name is not protected.
pub open spec fn spec_matches(pats: Seq<(bool, Seq<Tok>)>, name: Seq<char>) -> bool
    decreases pats.len(),
{
    if pats.len() == 0 {
        false
    } else if toks_match(pats.last().1, name) {
        !pats.last().0
    } else {
        spec_matches(pats.drop_last(), name)
    }
}

/// One compiled pattern.
#[derive(Debug)]
pub struct Pattern {
    negated: bool,
    toks: Vec<Tok>,
}

impl View for Pattern {
    type V = (bool, Seq<Tok>);

    closed spec fn view(&self) -> (bool, Seq<Tok>) {
        (self.negated, self.toks@)
    }
}

/// A compiled list of protected-branch patterns.
#[derive(Debug)]
pub struct ProtectedBranches {
    patterns: Vec<Pattern>,
}

impl View for ProtectedBranches {
    type V = Seq<(bool, Seq<Tok>)>;

    closed spec fn view(&self) -> Seq<(bool, Seq<Tok>)> {
        self.patterns@.map_values(|p: Pattern| p@)
    }
}

/// One unfolding step of [`spec_toks`] on a nonempty body.
pub proof fn lemma_toks_unfold(cs: Seq<char>)
    requires
        cs.len() > 0,
    ensures
        cs[0] == '*' && cs.len() > 1 && cs[1] == '*' ==> spec_toks(cs) == seq![Tok::StarStar]
            + spec_toks(cs.skip(2)),
        cs[0] == '*' && !(cs.len() > 1 && cs[1] == '*') ==> spec_toks(cs) == seq![Tok::Star]
            + spec_toks(cs.skip(1)),
        cs[0] != '*' && cs[0] == '?' ==> spec_toks(cs) == seq![Tok::AnyOne] + spec_toks(
            cs.skip(1),
        ),
        cs[0] != '*' && cs[0] != '?' ==> spec_toks(cs) == seq![Tok::Lit(cs[0] as u32)] + spec_toks(
            cs.skip(1),
        ),
{
}

/// Collects the characters of a string.
fn chars_of(s: &str) -> (r: Vec<char>)
    ensures
        r@ == s@,
{
    let n = s.unicode_len();
    let mut r: Vec<char> = Vec::new();
    let mut i: usize = 0;
    while i < n
        invariant
            i <= n,
            n == s@.len(),
            r@ == s@.subrange(0, i as int),
        decreases n - i,
    {
        r.push(s.get_char(i));
        assert(r@ =~= s@.subrange(0, i + 1));
        i = i + 1;
    }
    assert(r@ =~= s@);
    r
}

/// Compiles a pattern body into tokens; fails on three stars in a row.
fn compile_body(cs: &Vec<char>, start: usize) -> (r: Result<Vec<Tok>, Error>)
    requires
        start <= cs@.len(),
    ensures
        match r {
            Ok(t) => t@ == spec_toks(cs@.skip(start as int)) && !has_triple_star(
                cs@.skip(start as int),
            ),
            Err(e) => e == Error::Config && has_triple_star(cs@.skip(start as int)),
        },
{
    let n = cs.len();
    let mut out: Vec<Tok> = Vec::new();
    let mut i: usize = start;
    loop
        invariant
            start <= i <= n,
            n == cs@.len(),
            out@ + spec_toks(cs@.skip(i as int)) == spec_toks(cs@.skip(start as int)),
            !has_triple_star(cs@.skip(start as int)) <==> !has_triple_star(cs@.skip(i as int)),
        decreases n - i,
    {
        let ghost tail = cs@.skip(i as int);
        if i >= n {
            assert(tail.len() == 0);
            assert(out@ =~= spec_toks(cs@.skip(start as int)));
            return Ok(out);
        }
        assert(tail[0] == cs@[i as int]);
        let ghost prev = out@;
        let c = cs[i];
        if c == '*' {
            if i + 1 < n && cs[i + 1] == '*' {
                if i + 2 < n && cs[i + 2] == '*' {
                    assert(tail[0] == '*' && tail[1] == '*' && tail[2] == '*');
                    assert(has_triple_star(tail));
                    return Err(Error::Config);
                }
                assert(tail[1] == cs@[i + 1]);
                out.push(Tok::StarStar);
                assert(tail.skip(2) =~= cs@.skip(i + 2));
                assert(spec_toks(tail) == seq![Tok::StarStar] + spec_toks(tail.skip(2)));
                assert(out@ + spec_toks(cs@.skip(i + 2)) =~= prev + spec_toks(tail));
                proof {
                    lemma_no_triple_star_step(cs@, i as int, 2);
                }
                i = i + 2;
            } else {
                assert(tail.len() > 1 ==> tail[1] == cs@[i + 1]);
                out.push(Tok::Star);
                assert(tail.skip(1) =~= cs@.skip(i + 1));
                assert(spec_toks(tail) == seq![Tok::Star] + spec_toks(tail.skip(1)));
                assert(out@ + spec_toks(cs@.skip(i + 1)) =~= prev + spec_toks(tail));
                proof {
                    lemma_no_triple_star_step(cs@, i as int, 1);
                }
                i = i + 1;
            }
        } else if c == '?' {
            out.push(Tok::AnyOne);
            assert(tail.skip(1) =~= cs@.skip(i + 1));
            assert(spec_toks(tail) == seq![Tok::AnyOne] + spec_toks(tail.skip(1)));
            assert(out@ + spec_toks(cs@.skip(i + 1)) =~= prev + spec_toks(tail));
            proof {
                lemma_no_triple_star_step(cs@, i as int, 1);
            }
            i = i + 1;
        } else {
            out.push(Tok::Lit(c as u32));
            assert(tail.skip(1) =~= cs@.skip(i + 1));
            proof {
                lemma_toks_unfold(tail);
            }
            assert(spec_toks(tail) == seq![Tok::Lit(tail[0] as u32)] + spec_toks(tail.skip(1)));
            assert(out@ + spec_toks(cs@.skip(i + 1)) =~= prev + spec_toks(tail));
            proof {
                lemma_no_triple_star_step(cs@, i as int, 1);
            }
            i = i + 1;
        }
    }
}

/// Whether the tokens from `pi` on match the characters from `si` on.
fn toks_match_at(p: &Vec<Tok>, pi: usize, s: &Vec<char>, si: usize) -> (r: bool)
    requires
        pi <= p@.len(),
        si <= s@.len(),
    ensures
        r == toks_match(p@.skip(pi as int), s@.skip(si as int)),
    decreases p@.len() - pi, s@.len() - si,
{
    let ghost pt = p@.skip(pi as int);
    let ghost st = s@.skip(si as int);
    if pi >= p.len() {
        assert(pt.len() == 0);
        return si >= s.len();
    }
    assert(pt[0] == p@[pi as int]);
    assert(pt.drop_first() =~= p@.skip(pi + 1));
    let more = si < s.len();
    assert(more ==> st[0] == s@[si as int]);
    assert(more ==> st.drop_first() =~= s@.skip(si + 1));
    match p[pi] {
        Tok::Lit(c) => {
            if more && (s[si] as u32) == c {
                toks_match_at(p, pi + 1, s, si + 1)
            } else {
                false
            }
        },
        Tok::AnyOne => {
            if more && s[si] != '/' {
                toks_match_at(p, pi + 1, s, si + 1)
            } else {
                false
            }
        },
        Tok::Star => {
            if toks_match_at(p, pi + 1, s, si) {
                true
            } else if more && s[si] != '/' {
                toks_match_at(p, pi, s, si + 1)
            } else {
                false
            }
        },
        Tok::StarStar => {
            if toks_match_at(p, pi + 1, s, si) {
                true
            } else if more {
                toks_match_at(p, pi, s, si + 1)
            } else {
                false
            }
        },
    }
}

impl ProtectedBranches {
    /// Compiles the pattern list. Fails with [`Error::Config`] exactly when
    /// some pattern is malformed (holds three stars in a row).
    pub fn new(patterns: &Vec<String>) -> (r: Result<ProtectedBranches, Error>)
        ensures
            match r {
                Ok(m) => {
                    &&& m@.len() == patterns@.len()
                    &&& forall|t: int|
                        0 <= t < patterns@.len() ==> #[trigger] m@[t] == spec_pattern(
                            patterns@[t]@,
                        ) && pattern_ok(patterns@[t]@)
                },
                Err(e) => e == Error::Config && exists|t: int|
                    0 <= t < patterns@.len() && !pattern_ok(#[trigger] patterns@[t]@),
            },
    {
        let mut out: Vec<Pattern> = Vec::new();
        let mut i: usize = 0;
        while i < patterns.len()
            invariant
                i <= patterns@.len(),
                out@.len() == i,
                forall|t: int|
                    0 <= t < i ==> #[trigger] out@[t]@ == spec_pattern(patterns@[t]@)
                        && pattern_ok(patterns@[t]@),
            decreases patterns.len() - i,
        {
            let cs = chars_of(patterns[i].as_str());
            let negated = cs.len() > 0 && cs[0] == '!';
            let start: usize = if negated {
                1
            } else {
                0
            };
            proof {
                if negated {
                    assert(cs@.skip(1) =~= cs@.drop_first());
                } else {
                    assert(cs@.skip(0) =~= cs@);
                }
            }
            match compile_body(&cs, start) {
                Ok(toks) => {
                    assert(toks@ == spec_toks(spec_body(patterns@[i as int]@).1));
                    out.push(Pattern { negated, toks });
                    assert(out@[i as int]@ == spec_pattern(patterns@[i as int]@));
                },
                Err(e) => {
                    assert(!pattern_ok(patterns@[i as int]@));
                    return Err(Error::Config);
                },
            }
            i = i + 1;
        }
        let m = ProtectedBranches { patterns: out };
        assert forall|t: int| 0 <= t < patterns@.len() implies #[trigger] m@[t] == spec_pattern(
            patterns@[t]@,
        ) && pattern_ok(patterns@[t]@) by {
            assert(m@[t] == out@[t]@);
        }
        Ok(m)
    }

    /// How many patterns were compiled.
    pub fn len(&self) -> (r: usize)
        ensures
            r == self@.len(),
    {
        self.patterns.len()
    }

    /// Whether the pattern list declares this branch name protected.
    pub fn matches(&self, name: &String) -> (r: bool)
        ensures
            r == spec_matches(self@, name@),
    {
        let cs = chars_of(name.as_str());
        let mut k = self.patterns.len();
        assert(self@.subrange(0, self@.len() as int) =~= self@);
        loop
            invariant
                k <= self.patterns.len(),
                cs@ == name@,
                spec_matches(self@, name@) == spec_matches(self@.subrange(0, k as int), name@),
            decreases k,
        {
            if k == 0 {
                return false;
            }
            k = k - 1;
            let ghost pre = self@.subrange(0, k as int);
            let ghost post = self@.subrange(0, k + 1);
            assert(post.drop_last() =~= pre);
            assert(post.last() == self@[k as int]);
            assert(self@[k as int] == self.patterns@[k as int]@);
            let hit = toks_match_at(&self.patterns[k].toks, 0, &cs, 0);
            assert(self.patterns@[k as int]@.1.skip(0) =~= self.patterns@[k as int]@.1);
            assert(cs@.skip(0) =~= cs@);
            if hit {
                return !self.patterns[k].negated;
            }
        }
    }
}

/// Stepping forward in a pattern that continues to match keeps the
/// triple-star question unchanged, provided no triple star begins in the
/// consumed characters; here the consumed step never hides one, because
/// the caller only advances past `**` when no third star follows, and past
/// a single character otherwise.
proof fn lemma_no_triple_star_step(cs: Seq<char>, i: int, step: int)
    requires
        0 <= i,
        i + step <= cs.len(),
        step == 1 || step == 2,
        step == 2 ==> cs[i] == '*' && cs[i + 1] == '*' && (i + 2 < cs.len() ==> cs[i + 2] != '*'),
        step == 1 && i + 2 < cs.len() ==> !(cs[i] == '*' && cs[i + 1] == '*' && cs[i + 2] == '*'),
    ensures
        has_triple_star(cs.skip(i)) == has_triple_star(cs.skip(i + step)),
{
    let a = cs.skip(i);
    let b = cs.skip(i + step);
    if has_triple_star(b) {
        let t = choose|t: int|
            0 <= t && t + 2 < b.len() && #[trigger] b[t] == '*' && b[t + 1] == '*' && b[t + 2]
                == '*';
        assert(a[t + step] == '*' && a[t + step + 1] == '*' && a[t + step + 2] == '*');
        assert(has_triple_star(a));
    }
    if has_triple_star(a) {
        let t = choose|t: int|
            0 <= t && t + 2 < a.len() && #[trigger] a[t] == '*' && a[t + 1] == '*' && a[t + 2]
                == '*';
        if t >= step {
            assert(b[t - step] == '*' && b[t - step + 1] == '*' && b[t - step + 2] == '*');
            assert(has_triple_star(b));
        } else {
            assert(i + 2 < cs.len());
            if step == 1 {
                assert(a[0] == cs[i] && a[1] == cs[i + 1] && a[2] == cs[i + 2]);
                assert(false);
            } else {
                assert(a[2] == cs[i + 2]);
                assert(t == 0 || t == 1);
                assert(a[2] == '*');
                assert(false);
            }
        }
    }
}

} // verus!
