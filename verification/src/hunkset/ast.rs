//! What a hunkset expression is made of.

use crate::text::deep;
use vstd::prelude::*;

verus! {

#[derive(Debug, Clone, Copy, PartialEq, Eq, Structural)]
pub enum PatternKind {
    Exact,
    Substring,
    Glob,
    Regex,
}

#[derive(Debug, Clone, PartialEq, Eq)]
pub struct StringPattern {
    pub kind: PatternKind,
    pub value: String,
    /// True when the pattern was written with an explicit `kind:"value"` prefix.
    ///
    /// A predicate with a natural default may override an inferred kind, never
    /// one that was asked for.
    pub explicit: bool,
}

#[derive(Debug, Clone, PartialEq, Eq)]
pub enum Arg {
    Pattern(StringPattern),
    Range(usize, usize),
}

#[derive(Debug, PartialEq, Eq)]
pub enum Expr {
    All,
    Nothing,
    Function(String, Vec<Arg>),
    Union(Box<Expr>, Box<Expr>),
    Intersection(Box<Expr>, Box<Expr>),
    Difference(Box<Expr>, Box<Expr>),
    Negation(Box<Expr>),
}

#[verifier::ext_equal]
pub struct PatternView {
    pub kind: PatternKind,
    pub value: Seq<char>,
    pub explicit: bool,
}

#[verifier::ext_equal]
pub enum ArgView {
    Pattern(PatternView),
    Range(usize, usize),
}

#[verifier::ext_equal]
pub enum ExprView {
    All,
    Nothing,
    Function(Seq<char>, Seq<ArgView>),
    Union(Box<ExprView>, Box<ExprView>),
    Intersection(Box<ExprView>, Box<ExprView>),
    Difference(Box<ExprView>, Box<ExprView>),
    Negation(Box<ExprView>),
}

impl DeepView for StringPattern {
    type V = PatternView;

    open spec fn deep_view(&self) -> PatternView {
        PatternView { kind: self.kind, value: self.value@, explicit: self.explicit }
    }
}

impl DeepView for Arg {
    type V = ArgView;

    open spec fn deep_view(&self) -> ArgView {
        match self {
            Arg::Pattern(p) => ArgView::Pattern(p.deep_view()),
            Arg::Range(start, end) => ArgView::Range(*start, *end),
        }
    }
}

impl StringPattern {
    /// A pattern whose kind was inferred, not requested.
    pub fn inferred(kind: PatternKind, value: String) -> (r: StringPattern)
        ensures
            r.deep_view() == (PatternView { kind, value: value@, explicit: false }),
    {
        StringPattern { kind, value, explicit: false }
    }

    /// A copy of the pattern.
    pub fn copied(&self) -> (r: StringPattern)
        ensures
            r.deep_view() == self.deep_view(),
    {
        StringPattern { kind: self.kind, value: self.value.clone(), explicit: self.explicit }
    }
}

impl Expr {
    pub open spec fn shape(&self) -> ExprView
        decreases self,
    {
        match self {
            Expr::All => ExprView::All,
            Expr::Nothing => ExprView::Nothing,
            Expr::Function(name, args) => ExprView::Function(name@, deep(args@)),
            Expr::Union(left, right) => ExprView::Union(
                Box::new(left.shape()),
                Box::new(right.shape()),
            ),
            Expr::Intersection(left, right) => ExprView::Intersection(
                Box::new(left.shape()),
                Box::new(right.shape()),
            ),
            Expr::Difference(left, right) => ExprView::Difference(
                Box::new(left.shape()),
                Box::new(right.shape()),
            ),
            Expr::Negation(inner) => ExprView::Negation(Box::new(inner.shape())),
        }
    }

    /// How many operators, constants and calls an expression has.
    pub open spec fn size(&self) -> nat
        decreases self,
    {
        match self {
            Expr::All => 1,
            Expr::Nothing => 1,
            Expr::Function(_, _) => 1,
            Expr::Union(left, right) => 1 + left.size() + right.size(),
            Expr::Intersection(left, right) => 1 + left.size() + right.size(),
            Expr::Difference(left, right) => 1 + left.size() + right.size(),
            Expr::Negation(inner) => 1 + inner.size(),
        }
    }

    /// What an operator is applied to first, or to alone.
    pub open spec fn left(&self) -> Expr {
        match self {
            Expr::Union(left, _) => **left,
            Expr::Intersection(left, _) => **left,
            Expr::Difference(left, _) => **left,
            Expr::Negation(inner) => **inner,
            _ => Expr::All,
        }
    }

    /// What an operator with two sides is applied to second.
    pub open spec fn right(&self) -> Expr {
        match self {
            Expr::Union(_, right) => **right,
            Expr::Intersection(_, right) => **right,
            Expr::Difference(_, right) => **right,
            _ => Expr::All,
        }
    }

    /// Whether the outermost operator has two sides.
    pub open spec fn is_pair(&self) -> bool {
        self is Union || self is Intersection || self is Difference
    }

    /// Whether there is no operator at all.
    pub open spec fn is_leaf(&self) -> bool {
        !self.is_pair() && !(self is Negation)
    }

    fn leaf(&self) -> (r: bool)
        ensures
            r == self.is_leaf(),
        opens_invariants none
        no_unwind
    {
        match self {
            Expr::All | Expr::Nothing | Expr::Function(_, _) => true,
            _ => false,
        }
    }

    fn pair(&self) -> (r: bool)
        ensures
            r == self.is_pair(),
        opens_invariants none
        no_unwind
    {
        match self {
            Expr::Union(_, _) | Expr::Intersection(_, _) | Expr::Difference(_, _) => true,
            _ => false,
        }
    }

    /// Whether an operator stands below the outermost one.
    fn is_deep(&self) -> (r: bool)
        ensures
            r == !(self.left().is_leaf() && self.right().is_leaf()),
        opens_invariants none
        no_unwind
    {
        match self {
            Expr::Union(left, right) => !left.leaf() || !right.leaf(),
            Expr::Intersection(left, right) => !left.leaf() || !right.leaf(),
            Expr::Difference(left, right) => !left.leaf() || !right.leaf(),
            Expr::Negation(inner) => !inner.leaf(),
            _ => false,
        }
    }

    /// Exchange the left side.
    fn swap_left(&mut self, e: &mut Expr)
        ensures
            old(self).is_leaf() ==> *final(self) == *old(self) && *final(e) == *old(e),
            !old(self).is_leaf() ==> *final(e) == old(self).left() && final(self).left() == *old(e),
            final(self).right() == old(self).right(),
            final(self).is_pair() == old(self).is_pair(),
            final(self).is_leaf() == old(self).is_leaf(),
        opens_invariants none
        no_unwind
    {
        match self {
            Expr::Union(left, _) => std::mem::swap(&mut **left, e),
            Expr::Intersection(left, _) => std::mem::swap(&mut **left, e),
            Expr::Difference(left, _) => std::mem::swap(&mut **left, e),
            Expr::Negation(inner) => std::mem::swap(&mut **inner, e),
            _ => {},
        }
    }

    /// Exchange the right side.
    fn swap_right(&mut self, e: &mut Expr)
        ensures
            !old(self).is_pair() ==> *final(self) == *old(self) && *final(e) == *old(e),
            old(self).is_pair() ==> *final(e) == old(self).right() && final(self).right() == *old(
                e,
            ),
            final(self).left() == old(self).left(),
            final(self).is_pair() == old(self).is_pair(),
            final(self).is_leaf() == old(self).is_leaf(),
        opens_invariants none
        no_unwind
    {
        match self {
            Expr::Union(_, right) => std::mem::swap(&mut **right, e),
            Expr::Intersection(_, right) => std::mem::swap(&mut **right, e),
            Expr::Difference(_, right) => std::mem::swap(&mut **right, e),
            _ => {},
        }
    }

    /// Take off the outermost operator, or one below it on the left, or turn the
    /// left side over to the right: one step towards an expression without any.
    ///
    /// Nothing is freed but single operators.
    fn unravel(&mut self)
        requires
            !(old(self).left().is_leaf() && old(self).right().is_leaf()),
        ensures
            final(self).size() < old(self).size() || (final(self).size() == old(self).size()
                && final(self).left().size() < old(self).left().size()),
        opens_invariants none
        no_unwind
    {
        let ghost whole = *self;
        proof {
            lemma_size(whole);
        }
        let mut left = Expr::All;
        self.swap_left(&mut left);
        let mut right = Expr::All;
        self.swap_right(&mut right);
        if right.leaf() {
            std::mem::swap(self, &mut left);
        } else if left.leaf() {
            std::mem::swap(self, &mut right);
        } else {
            proof {
                lemma_size(left);
            }
            let mut first = Expr::All;
            left.swap_left(&mut first);
            self.swap_left(&mut first);
            if left.pair() {
                let mut second = Expr::All;
                left.swap_right(&mut second);
                left.swap_left(&mut second);
                left.swap_right(&mut right);
                proof {
                    lemma_size(left);
                }
                self.swap_right(&mut left);
            } else {
                self.swap_right(&mut right);
            }
            proof {
                lemma_size(*self);
            }
        }
    }
}

proof fn lemma_size(e: Expr)
    ensures
        e.is_pair() ==> e.size() == 1 + e.left().size() + e.right().size(),
        e is Negation ==> e.size() == 1 + e.left().size(),
        e.is_leaf() ==> e.size() == 1,
        e.left().size() >= 1,
        e.right().size() >= 1,
{
}

impl Arg {
    /// A copy of the argument.
    pub fn copied(&self) -> (r: Arg)
        ensures
            r.deep_view() == self.deep_view(),
    {
        match self {
            Arg::Pattern(p) => Arg::Pattern(p.copied()),
            Arg::Range(start, end) => Arg::Range(*start, *end),
        }
    }
}

impl Expr {
    /// A copy of the expression.
    pub fn copied(&self) -> (r: Expr)
        ensures
            r.shape() == self.shape(),
        decreases self,
    {
        match self {
            Expr::All => Expr::All,
            Expr::Nothing => Expr::Nothing,
            Expr::Function(name, args) => {
                let mut copies: Vec<Arg> = Vec::new();
                let mut i: usize = 0;
                while i < args.len()
                    invariant
                        i <= args.len(),
                        copies@.len() == i,
                        forall|j: int|
                            0 <= j < i ==> (#[trigger] copies@[j]).deep_view()
                                == args@[j].deep_view(),
                    decreases args.len() - i,
                {
                    copies.push(args[i].copied());
                    i += 1;
                }
                assert(deep(copies@) =~= deep(args@));
                Expr::Function(name.clone(), copies)
            },
            Expr::Union(left, right) => Expr::Union(
                Box::new(left.copied()),
                Box::new(right.copied()),
            ),
            Expr::Intersection(left, right) => Expr::Intersection(
                Box::new(left.copied()),
                Box::new(right.copied()),
            ),
            Expr::Difference(left, right) => Expr::Difference(
                Box::new(left.copied()),
                Box::new(right.copied()),
            ),
            Expr::Negation(inner) => Expr::Negation(Box::new(inner.copied())),
        }
    }
}

impl Clone for Expr {
    fn clone(&self) -> (r: Expr)
        ensures
            r.shape() == self.shape(),
    {
        self.copied()
    }
}

/// An expression is freed at constant depth.
///
/// `a | b | c | ...` is a left-leaning tree as long as the chain, and freeing it
/// by recursion takes a stack as deep as that. Nothing bounds the length of a
/// chain: it is read in a loop.
impl Drop for Expr {
    fn drop(&mut self)
        opens_invariants none
        no_unwind
    {
        while self.is_deep()
            decreases self.size(), self.left().size(),
        {
            self.unravel();
        }
    }
}

} // verus!
