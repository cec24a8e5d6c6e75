//! Strings with variable interpolation: an ordered sequence of segments, each
//! a literal fragment or a named-variable placeholder. Variables are never
//! resolved here; rendering writes a variable as `${name}`.

use vstd::prelude::*;

verus! {

/// Ghost model of one string segment: a literal run of characters or a
/// variable placeholder holding the variable's name.
pub enum SegV {
    Lit(Seq<char>),
    Var(Seq<char>),
}

/// One segment of an interpolated string.
#[derive(Debug, Clone)]
pub enum StringContent {
    Literal(String),
    Variable(String),
}

impl View for StringContent {
    type V = SegV;

    open spec fn view(&self) -> SegV {
        match self {
            StringContent::Literal(s) => SegV::Lit(s@),
            StringContent::Variable(s) => SegV::Var(s@),
        }
    }
}

/// An interpolated string: the ordered segment sequence. Equality and
/// rendering are defined over the full sequence; variables stay symbolic.
#[derive(Debug, Clone)]
pub struct PuppetString(pub Vec<StringContent>);

impl View for PuppetString {
    type V = Seq<SegV>;

    open spec fn view(&self) -> Seq<SegV> {
        self.0@.map_values(|c: StringContent| c@)
    }
}

/// The text a segment renders to: literals verbatim, a variable as `${name}`.
pub open spec fn seg_text(s: SegV) -> Seq<char> {
    match s {
        SegV::Lit(t) => t,
        SegV::Var(v) => seq!['$', '{'] + v + seq!['}'],
    }
}

/// The text a whole segment sequence renders to.
pub open spec fn segs_text(ss: Seq<SegV>) -> Seq<char>
    decreases ss.len(),
{
    if ss.len() == 0 {
        Seq::empty()
    } else {
        seg_text(ss[0]) + segs_text(ss.drop_first())
    }
}

/// Relies on `String::push`: appends exactly the one character.
#[verifier::external_body]
pub(crate) fn push_char(s: &mut String, c: char)
    ensures
        final(s)@ == old(s)@.push(c),
{
    s.push(c);
}

impl PuppetString {
    /// The empty string: no segments.
    pub fn new() -> (r: Self)
        ensures
            r@ == Seq::<SegV>::empty(),
    {
        let r = PuppetString(Vec::new());
        proof {
            assert(r@ =~= Seq::<SegV>::empty());
        }
        r
    }

    /// Structural equality over the full segment sequence.
    pub fn matches(&self, other: &Self) -> (r: bool)
        ensures
            r == (self@ == other@),
    {
        if self.0.len() != other.0.len() {
            proof {
                assert(self@.len() != other@.len());
            }
            return false;
        }
        let n = self.0.len();
        let mut i: usize = 0;
        while i < n
            invariant
                n == self.0.len() == other.0.len(),
                i <= n,
                forall|k: int| 0 <= k < i ==> self@[k] == other@[k],
            decreases n - i,
        {
            let same = match (&self.0[i], &other.0[i]) {
                (StringContent::Literal(a), StringContent::Literal(b)) => *a == *b,
                (StringContent::Variable(a), StringContent::Variable(b)) => *a == *b,
                _ => false,
            };
            if !same {
                proof {
                    assert(self@[i as int] != other@[i as int]);
                }
                return false;
            }
            i += 1;
        }
        proof {
            assert(self@ =~= other@);
        }
        true
    }

    /// A copy with the same segment sequence.
    pub fn duplicate(&self) -> (r: Self)
        ensures
            r@ == self@,
    {
        let mut v: Vec<StringContent> = Vec::new();
        let n = self.0.len();
        let mut i: usize = 0;
        while i < n
            invariant
                n == self.0.len(),
                i <= n,
                v@.map_values(|c: StringContent| c@) == self@.subrange(0, i as int),
            decreases n - i,
        {
            let ghost pre = v@.map_values(|c: StringContent| c@);
            match &self.0[i] {
                StringContent::Literal(s) => v.push(StringContent::Literal(s.clone())),
                StringContent::Variable(s) => v.push(StringContent::Variable(s.clone())),
            }
            proof {
                assert(v@.map_values(|c: StringContent| c@) =~= pre.push(self@[i as int]));
                assert(v@.map_values(|c: StringContent| c@) =~= self@.subrange(0, i as int + 1));
            }
            i += 1;
        }
        let r = PuppetString(v);
        proof {
            assert(self@.subrange(0, n as int) =~= self@);
        }
        r
    }

    /// Render the string: literals verbatim, variables as `${name}`.
    pub fn to_text(&self) -> (r: String)
        ensures
            r@ == segs_text(self@),
    {
        let mut r = String::new();
        let n = self.0.len();
        let mut i: usize = 0;
        proof {
            assert(self@.skip(0) =~= self@);
            assert(r@ + segs_text(self@) =~= segs_text(self@));
        }
        while i < n
            invariant
                n == self.0.len(),
                i <= n,
                r@ + segs_text(self@.skip(i as int)) == segs_text(self@),
            decreases n - i,
        {
            let ghost pre = r@;
            match &self.0[i] {
                StringContent::Literal(s) => {
                    r.append(s.as_str());
                }
                StringContent::Variable(v) => {
                    push_char(&mut r, '$');
                    push_char(&mut r, '{');
                    r.append(v.as_str());
                    push_char(&mut r, '}');
                }
            }
            proof {
                assert(r@ == pre + seg_text(self@[i as int]));
                assert(self@.skip(i as int).drop_first() =~= self@.skip(i as int + 1));
                assert(segs_text(self@.skip(i as int)) == seg_text(self@[i as int]) + segs_text(
                    self@.skip(i as int + 1),
                )) by {
                    assert(self@.skip(i as int)[0] == self@[i as int]);
                }
                assert(r@ + segs_text(self@.skip(i as int + 1)) =~= segs_text(self@));
            }
            i += 1;
        }
        proof {
            assert(self@.skip(n as int) =~= Seq::<SegV>::empty());
            assert(r@ =~= segs_text(self@));
        }
        r
    }
}

} // verus!
