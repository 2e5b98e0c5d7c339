use vstd::prelude::*;

verus! {

/// One node of a term: an operator and its ordered children.
#[derive(Debug, Clone, PartialEq, Eq, Hash)]
pub struct Term<C> {
    pub op: u64,
    pub args: Vec<C>,
}

impl<C: Copy> Term<C> {
    /// A copy of this term.
    pub(crate) fn duplicate(&self) -> (r: Term<C>)
        ensures
            r.op == self.op,
            r.args@ == self.args@,
    {
        let mut args: Vec<C> = Vec::new();
        let mut k: usize = 0;
        while k < self.args.len()
            invariant
                k <= self.args@.len(),
                args@ == self.args@.subrange(0, k as int),
            decreases self.args@.len() - k,
        {
            args.push(self.args[k]);
            k = k + 1;
            proof {
                assert(args@ =~= self.args@.subrange(0, k as int));
            }
        }
        assert(self.args@.subrange(0, k as int) =~= self.args@);
        Term { op: self.op, args }
    }
}

/// A full expression tree: an operator applied to sub-expressions.
#[derive(Debug, PartialEq, Eq, Hash)]
pub struct Expr {
    pub op: u64,
    pub args: Vec<Expr>,
}

impl Clone for Expr {
    /// A deep copy of this expression.
    fn clone(&self) -> (r: Self)
        ensures
            r.model() == self.model(),
        decreases self,
    {
        let mut args: Vec<Expr> = Vec::new();
        let mut k: usize = 0;
        while k < self.args.len()
            invariant
                k <= self.args@.len(),
                args@.len() == k,
                forall|j: int| 0 <= j < k ==> #[trigger] args@[j].model() == self.args@[j].model(),
            decreases self.args@.len() - k,
        {
            let a = self.args[k].clone();
            args.push(a);
            k = k + 1;
        }
        let r = Expr { op: self.op, args };
        assert forall|j: int| 0 <= j < self.args@.len() implies #[trigger] r.model().args[j]
            == self.model().args[j] by {
            assert(r.args@[j].model() == self.args@[j].model());
        }
        assert(r.model().args =~= self.model().args);
        r
    }
}

/// The mathematical value of an expression tree.
pub struct ExprModel {
    pub op: u64,
    pub args: Seq<ExprModel>,
}

impl Expr {
    /// The mathematical value of this expression.
    pub open spec fn model(&self) -> ExprModel
        decreases self,
    {
        ExprModel {
            op: self.op,
            args: Seq::new(
                self.args@.len(),
                |i: int|
                    if 0 <= i < self.args@.len() {
                        self.args@[i].model()
                    } else {
                        ExprModel { op: 0, args: Seq::empty() }
                    },
            ),
        }
    }
}

/// A typed term-based AST to manipulate.
///
/// [`Type`] is the trait that enables interactions with the graph: a value is
/// lowered into a [`Term`] whose children are values of the same type, and a
/// [`Term`] is instantiated back into a value.
pub trait Type: Sized {
    /// Lower a value into a [`Term`].
    fn lower(self) -> Term<Self>;

    /// Instantiate a [`Term`] into a value.
    fn inst(term: Term<Self>) -> Self;

    /// Whether the value has no sub-terms.
    fn is_leaf(&self) -> bool;
}

impl Type for Expr {
    fn lower(self) -> (t: Term<Expr>)
        ensures
            t.op == self.op,
            t.args@ == self.args@,
    {
        Term { op: self.op, args: self.args }
    }

    fn inst(term: Term<Expr>) -> (e: Expr)
        ensures
            e.op == term.op,
            e.args@ == term.args@,
    {
        Expr { op: term.op, args: term.args }
    }

    fn is_leaf(&self) -> (b: bool)
        ensures
            b == (self.args@.len() == 0),
    {
        self.args.len() == 0
    }
}

} // verus!
