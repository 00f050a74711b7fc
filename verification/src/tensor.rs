//! Tensors and reverse-mode differentiation.
//!
//! Tensors live in a graph that only grows; a tensor is named by its index.
//! A tensor made by an operation lists the tensors it was computed from, all
//! of them older than itself, so the graph is acyclic by construction and
//! descending index order visits every tensor before the tensors it was
//! computed from.
//!
//! A backward pass sets the gradient of its root to ones, whatever it held
//! before, and adds to the gradient of each parent it reaches the product
//! of the local derivative and the child's gradient. Gradients are never
//! cleared: a second pass adds to what the first one left.
use vstd::prelude::*;
use crate::arithmetic::{number_add, number_multiply, product, sum};
use crate::number::{
    number_relu, number_relu_slope, rectified, rectifier_slope, ONE_BITS, ZERO_BITS,
};
use crate::value::TensorRef;

verus! {

/// How a tensor came to be.
#[derive(Clone, Copy, Debug, PartialEq, Eq, Structural)]
pub enum Operation {
    /// Given by its elements.
    Leaf,
    /// Elementwise `max(0, x)` of its one parent.
    Relu,
}

/// A tensor of the graph.
#[derive(Debug)]
pub struct Tensor {
    pub data: Vec<u64>,
    pub shape: Vec<usize>,
    pub grad: Vec<u64>,
    pub parents: Vec<usize>,
    pub op: Operation,
}

/// The mathematical content of a tensor.
pub struct Node {
    pub data: Seq<u64>,
    pub shape: Seq<usize>,
    pub grad: Seq<u64>,
    pub parents: Seq<usize>,
    pub op: Operation,
}

impl View for Tensor {
    type V = Node;

    open spec fn view(&self) -> Node {
        Node {
            data: self.data@,
            shape: self.shape@,
            grad: self.grad@,
            parents: self.parents@,
            op: self.op,
        }
    }
}

/// `n` elements, all positive zero.
pub open spec fn zeros(n: nat) -> Seq<u64> {
    Seq::new(n, |i: int| ZERO_BITS)
}

/// `n` elements, all 1.0.
pub open spec fn ones(n: nat) -> Seq<u64> {
    Seq::new(n, |i: int| ONE_BITS)
}

/// Number of elements that a shape describes: the product of its extents.
pub open spec fn shape_size(shape: Seq<usize>) -> nat
    decreases shape.len(),
{
    if shape.len() == 0 {
        1
    } else {
        shape_size(shape.drop_last()) * (shape.last() as nat)
    }
}

/// The invariant of one tensor at index `at` of graph `g`.
pub open spec fn node_wf(g: Seq<Node>, at: int) -> bool {
    let n = g[at];
    &&& n.grad.len() == n.data.len()
    &&& shape_size(n.shape) == n.data.len()
    &&& forall|j: int| 0 <= j < n.parents.len() ==> (#[trigger] n.parents[j]) < at
    &&& forall|j: int|
        0 <= j < n.parents.len() ==> g[(#[trigger] n.parents[j]) as int].data.len() == n.data.len()
    &&& (n.op == Operation::Leaf ==> n.parents.len() == 0)
    &&& (n.op == Operation::Relu ==> n.parents.len() == 1)
}

/// The invariant of a graph: gradients are as long as the data, shapes fit,
/// every parent is older than its child and as long.
pub open spec fn graph_wf(g: Seq<Node>) -> bool {
    forall|i: int| 0 <= i < g.len() ==> node_wf(g, i)
}

/// A new leaf with the given elements and a zero gradient.
pub open spec fn leaf(data: Seq<u64>, shape: Seq<usize>) -> Node {
    Node { data, shape, grad: zeros(data.len()), parents: Seq::empty(), op: Operation::Leaf }
}

/// The tensor that `relu` makes of tensor `t`.
pub open spec fn relu_of(g: Seq<Node>, t: int) -> Node {
    Node {
        data: Seq::new(g[t].data.len(), |i: int| rectified(g[t].data[i])),
        shape: g[t].shape,
        grad: zeros(g[t].data.len()),
        parents: seq![t as usize],
        op: Operation::Relu,
    }
}

/// The tensor that `gradient` makes of tensor `t`: a leaf that holds what
/// has been accumulated in `t`'s gradient so far.
pub open spec fn gradient_of(g: Seq<Node>, t: int) -> Node {
    leaf(g[t].grad, g[t].shape)
}

/// A growing arena of tensors.
#[derive(Debug)]
pub struct Graph {
    nodes: Vec<Tensor>,
}

impl View for Graph {
    type V = Seq<Node>;

    closed spec fn view(&self) -> Seq<Node> {
        Seq::new(self.nodes@.len(), |i: int| self.nodes@[i]@)
    }
}

/// A vector of `n` copies of `value`.
pub fn filled(n: usize, value: u64) -> (v: Vec<u64>)
    ensures
        v@ == Seq::new(n as nat, |i: int| value),
{
    let mut v: Vec<u64> = Vec::new();
    let mut i: usize = 0;
    while i < n
        invariant
            i <= n,
            v@ == Seq::new(i as nat, |k: int| value),
        decreases n - i,
    {
        v.push(value);
        i += 1;
        assert(v@ =~= Seq::new(i as nat, |k: int| value));
    }
    v
}

/// A copy of a vector of extents.
pub fn copy_shape(shape: &Vec<usize>) -> (v: Vec<usize>)
    ensures
        v@ == shape@,
{
    let mut v: Vec<usize> = Vec::new();
    let mut i: usize = 0;
    while i < shape.len()
        invariant
            i <= shape.len(),
            v@ == shape@.take(i as int),
        decreases shape.len() - i,
    {
        v.push(shape[i]);
        i += 1;
        assert(v@ =~= shape@.take(i as int));
    }
    assert(shape@.take(shape@.len() as int) =~= shape@);
    v
}

/// A copy of a vector of patterns.
pub fn copy_numbers(numbers: &Vec<u64>) -> (v: Vec<u64>)
    ensures
        v@ == numbers@,
{
    let mut v: Vec<u64> = Vec::new();
    let mut i: usize = 0;
    while i < numbers.len()
        invariant
            i <= numbers.len(),
            v@ == numbers@.take(i as int),
        decreases numbers.len() - i,
    {
        v.push(numbers[i]);
        i += 1;
        assert(v@ =~= numbers@.take(i as int));
    }
    assert(numbers@.take(numbers@.len() as int) =~= numbers@);
    v
}

/// A shape with an extent of zero describes no element.
pub proof fn lemma_shape_size_zero(shape: Seq<usize>, at: int)
    requires
        0 <= at < shape.len(),
        shape[at] == 0,
    ensures
        shape_size(shape) == 0,
    decreases shape.len(),
{
    if at == shape.len() - 1 {
        assert(shape_size(shape.drop_last()) * 0 == 0) by (nonlinear_arith);
    } else {
        lemma_shape_size_zero(shape.drop_last(), at);
        assert(0 * (shape.last() as nat) == 0) by (nonlinear_arith);
    }
}

/// Without an extent of zero, a longer prefix of a shape describes at least
/// as many elements as a shorter one.
pub proof fn lemma_shape_size_grows(shape: Seq<usize>, shorter: int)
    requires
        0 <= shorter <= shape.len(),
        forall|i: int| 0 <= i < shape.len() ==> shape[i] >= 1,
    ensures
        shape_size(shape.take(shorter)) <= shape_size(shape),
    decreases shape.len() - shorter,
{
    if shorter < shape.len() {
        let rest = shape.drop_last();
        assert(rest.take(shorter) =~= shape.take(shorter));
        lemma_shape_size_grows(rest, shorter);
        let a = shape_size(rest);
        let d = shape.last() as nat;
        assert(a <= a * d) by (nonlinear_arith)
            requires
                d >= 1,
        ;
    } else {
        assert(shape.take(shorter) =~= shape);
    }
}

/// Whether a shape describes exactly `len` elements.
pub fn shape_matches(shape: &Vec<usize>, len: usize) -> (r: bool)
    ensures
        r == (shape_size(shape@) == len),
{
    let mut i: usize = 0;
    while i < shape.len()
        invariant
            i <= shape.len(),
            forall|k: int| 0 <= k < i ==> shape@[k] >= 1,
        decreases shape.len() - i,
    {
        if shape[i] == 0 {
            proof {
                lemma_shape_size_zero(shape@, i as int);
            }
            return len == 0;
        }
        i += 1;
    }
    let mut size: usize = 1;
    let mut j: usize = 0;
    assert(shape@.take(0) =~= Seq::<usize>::empty());
    while j < shape.len()
        invariant
            j <= shape.len(),
            forall|k: int| 0 <= k < shape.len() ==> shape@[k] >= 1,
            size == shape_size(shape@.take(j as int)),
            size <= len || j == 0,
        decreases shape.len() - j,
    {
        let extent = shape[j];
        assert((size as u128) * (extent as u128) <= 0xffff_ffff_ffff_ffff * 0xffff_ffff_ffff_ffff)
            by (nonlinear_arith)
            requires
                size <= 0xffff_ffff_ffff_ffff,
                extent <= 0xffff_ffff_ffff_ffff,
        ;
        let wide: u128 = (size as u128) * (extent as u128);
        proof {
            let next = shape@.take(j + 1);
            assert(next.drop_last() =~= shape@.take(j as int));
            assert(next.last() == shape@[j as int]);
            assert(shape_size(next) == size * shape@[j as int]);
            lemma_shape_size_grows(shape@, j + 1);
        }
        if wide > len as u128 {
            return false;
        }
        size = wide as usize;
        j += 1;
    }
    assert(shape@.take(shape@.len() as int) =~= shape@);
    size == len
}

impl Graph {
    /// The invariant of the arena.
    pub open spec fn wf(&self) -> bool {
        graph_wf(self@)
    }

    pub fn new() -> (g: Graph)
        ensures
            g.wf(),
            g@ == Seq::<Node>::empty(),
    {
        let g = Graph { nodes: Vec::new() };
        assert(g@ =~= Seq::<Node>::empty());
        g
    }

    /// Number of tensors in the graph.
    pub fn len(&self) -> (n: usize)
        ensures
            n == self@.len(),
    {
        self.nodes.len()
    }

    /// The tensor behind a reference, if the graph holds it.
    pub fn get(&self, t: TensorRef) -> (r: Option<&Tensor>)
        ensures
            r.is_some() == (t.0 < self@.len()),
            r matches Some(x) ==> x@ == self@[t.0 as int],
    {
        if t.0 < self.nodes.len() {
            Some(&self.nodes[t.0])
        } else {
            None
        }
    }

    /// Adds a leaf with the given elements, provided the shape describes
    /// exactly that many.
    pub fn tensor(&mut self, data: Vec<u64>, shape: Vec<usize>) -> (r: Option<TensorRef>)
        requires
            old(self).wf(),
        ensures
            final(self).wf(),
            r.is_some() == (shape_size(shape@) == data@.len()),
            r matches Some(t) ==> t.0 == old(self)@.len() && final(self)@ == old(self)@.push(
                leaf(data@, shape@),
            ),
            r.is_none() ==> final(self)@ == old(self)@,
    {
        if !shape_matches(&shape, data.len()) {
            return None;
        }
        let index = self.nodes.len();
        let grad = filled(data.len(), ZERO_BITS);
        let ghost before = self@;
        let ghost node = leaf(data@, shape@);
        self.nodes.push(Tensor { data, shape, grad, parents: Vec::new(), op: Operation::Leaf });
        proof {
            assert(self@ =~= before.push(node));
            lemma_push_keeps_wf(before, node);
        }
        Some(TensorRef(index))
    }

    /// Adds the elementwise `max(0, x)` of tensor `t`, recording `t` as its
    /// parent. `None`, and nothing changes, when the graph does not hold `t`.
    pub fn relu(&mut self, t: TensorRef) -> (r: Option<TensorRef>)
        requires
            old(self).wf(),
        ensures
            final(self).wf(),
            r.is_some() == (t.0 < old(self)@.len()),
            r matches Some(n) ==> n.0 == old(self)@.len() && final(self)@ == old(self)@.push(
                relu_of(old(self)@, t.0 as int),
            ),
            r.is_none() ==> final(self)@ == old(self)@,
    {
        if t.0 >= self.nodes.len() {
            return None;
        }
        let index = self.nodes.len();
        let ghost before = self@;
        let ghost node = relu_of(before, t.0 as int);
        let source = &self.nodes[t.0];
        assert(source@ == before[t.0 as int]);
        assert(node_wf(before, t.0 as int));
        let mut data: Vec<u64> = Vec::new();
        let mut i: usize = 0;
        while i < source.data.len()
            invariant
                i <= source.data.len(),
                data@ == Seq::new(i as nat, |k: int| rectified(source.data@[k])),
            decreases source.data.len() - i,
        {
            data.push(number_relu(source.data[i]));
            i += 1;
            assert(data@ =~= Seq::new(i as nat, |k: int| rectified(source.data@[k])));
        }
        let shape = copy_shape(&source.shape);
        let grad = filled(data.len(), ZERO_BITS);
        let mut parents: Vec<usize> = Vec::new();
        parents.push(t.0);
        assert(parents@ =~= seq![t.0]);
        assert(data@ =~= node.data);
        self.nodes.push(Tensor { data, shape, grad, parents, op: Operation::Relu });
        proof {
            assert(self@ =~= before.push(node));
            lemma_push_keeps_wf(before, node);
        }
        Some(TensorRef(index))
    }

    /// Adds a leaf that holds the gradient accumulated in tensor `t` so far
    /// (zeros before any backward pass has reached `t`), in `t`'s shape.
    /// `None`, and nothing changes, when the graph does not hold `t`.
    pub fn gradient(&mut self, t: TensorRef) -> (r: Option<TensorRef>)
        requires
            old(self).wf(),
        ensures
            final(self).wf(),
            r.is_some() == (t.0 < old(self)@.len()),
            r matches Some(n) ==> n.0 == old(self)@.len() && final(self)@ == old(self)@.push(
                gradient_of(old(self)@, t.0 as int),
            ),
            r.is_none() ==> final(self)@ == old(self)@,
    {
        if t.0 >= self.nodes.len() {
            return None;
        }
        let index = self.nodes.len();
        let ghost before = self@;
        let ghost node = gradient_of(before, t.0 as int);
        let source = &self.nodes[t.0];
        assert(source@ == before[t.0 as int]);
        assert(node_wf(before, t.0 as int));
        let data = copy_numbers(&source.grad);
        let shape = copy_shape(&source.shape);
        let grad = filled(data.len(), ZERO_BITS);
        self.nodes.push(Tensor { data, shape, grad, parents: Vec::new(), op: Operation::Leaf });
        proof {
            assert(self@ =~= before.push(node));
            lemma_push_keeps_wf(before, node);
        }
        Some(TensorRef(index))
    }
}

/// Whether a backward pass that starts at tensor `root` reaches tensor `n`:
/// `n` is the root, or a parent of a tensor that the pass reaches.
pub open spec fn reaches(g: Seq<Node>, root: int, n: int) -> bool
    decreases root - n, 0int,
{
    n == root || (0 <= n < root && feeds(g, root, n, n + 1))
}

/// Whether one of the tensors from `from` up to `root` is reached by the
/// pass and has `n` among its parents.
pub open spec fn feeds(g: Seq<Node>, root: int, n: int, from: int) -> bool
    decreases root - n - 1, root - from + 1,
{
    if from > root || from <= n {
        false
    } else {
        (reaches(g, root, from) && g[from].parents.contains(n as usize)) || feeds(
            g,
            root,
            n,
            from + 1,
        )
    }
}

/// The tensors from `low` up to `root` that a pass from `root` reaches, in
/// descending order.
pub open spec fn reached_down_to(g: Seq<Node>, root: int, low: int) -> Seq<usize>
    decreases root - low + 1,
{
    if low > root || low < 0 {
        Seq::empty()
    } else {
        let above = reached_down_to(g, root, low + 1);
        if reaches(g, root, low) {
            above.push(low as usize)
        } else {
            above
        }
    }
}

/// The order in which a backward pass from `root` visits the graph: every
/// reached tensor once, each before the tensors it was computed from.
pub open spec fn visiting_order(g: Seq<Node>, root: int) -> Seq<usize> {
    reached_down_to(g, root, 0)
}

/// What `reached_down_to` holds: exactly the reached tensors from `low` up,
/// strictly descending.
pub proof fn lemma_reached_down_to(g: Seq<Node>, root: int, low: int)
    requires
        0 <= low,
        root <= usize::MAX,
    ensures
        forall|i: int, j: int|
            0 <= i < j < reached_down_to(g, root, low).len() ==> reached_down_to(g, root, low)[i]
                > reached_down_to(g, root, low)[j],
        forall|i: int|
            0 <= i < reached_down_to(g, root, low).len() ==> low <= (#[trigger] reached_down_to(
                g,
                root,
                low,
            )[i]) <= root,
        forall|n: int|
            low <= n <= root ==> (reached_down_to(g, root, low).contains(n as usize) <==> reaches(
                g,
                root,
                n,
            )),
    decreases root - low + 1,
{
    let s = reached_down_to(g, root, low);
    if low > root {
    } else {
        let above = reached_down_to(g, root, low + 1);
        lemma_reached_down_to(g, root, low + 1);
        assert forall|n: int| low <= n <= root implies (s.contains(n as usize) <==> reaches(
            g,
            root,
            n,
        )) by {
            if reaches(g, root, low) {
                assert(s == above.push(low as usize));
                assert(s[above.len() as int] == low as usize);
                if s.contains(n as usize) {
                    let i = choose|i: int| 0 <= i < s.len() && s[i] == n as usize;
                    if i < above.len() {
                        assert(above[i] == n as usize);
                        assert(above.contains(n as usize));
                    }
                }
                if n > low && reaches(g, root, n) {
                    assert(above.contains(n as usize));
                    let i = choose|i: int| 0 <= i < above.len() && above[i] == n as usize;
                    assert(s[i] == n as usize);
                }
            } else {
                if s.contains(n as usize) {
                    let i = choose|i: int| 0 <= i < s.len() && s[i] == n as usize;
                    assert(above[i] == n as usize);
                }
            }
        }
    }
}

/// The visiting order holds every reached tensor exactly once, and a tensor
/// always stands before each of its parents: no tensor hands its gradient
/// on before all that flows into it has arrived, and none does so twice.
pub proof fn lemma_visiting_order(g: Seq<Node>, root: int)
    requires
        graph_wf(g),
        0 <= root < g.len() <= usize::MAX,
    ensures
        visiting_order(g, root).no_duplicates(),
        forall|n: usize| visiting_order(g, root).contains(n) <==> reaches(g, root, n as int),
        forall|i: int| 0 <= i < visiting_order(g, root).len() ==> visiting_order(g, root)[i] <= root,
        forall|i: int, j: int|
            0 <= i < visiting_order(g, root).len() && 0 <= j < visiting_order(g, root).len()
                && g[visiting_order(g, root)[i] as int].parents.contains(visiting_order(g, root)[j])
                ==> i < j,
{
    let s = visiting_order(g, root);
    lemma_reached_down_to(g, root, 0);
    assert forall|n: usize| s.contains(n) <==> reaches(g, root, n as int) by {
        if s.contains(n) {
            let i = choose|i: int| 0 <= i < s.len() && s[i] == n;
            assert(0 <= s[i] <= root);
        }
    }
    assert forall|i: int, j: int|
        0 <= i < s.len() && 0 <= j < s.len() && g[s[i] as int].parents.contains(s[j]) implies i
        < j by {
        let c = s[i] as int;
        assert(0 <= s[i] <= root);
        assert(node_wf(g, c));
        let k = choose|k: int| 0 <= k < g[c].parents.len() && g[c].parents[k] == s[j];
        assert(g[c].parents[k] < c);
        if j < i {
            assert(s[j] > s[i]);
        }
    }
}

/// Local derivative of an operation at one element of its input.
pub open spec fn slope(op: Operation, input: u64) -> u64 {
    match op {
        Operation::Relu => rectifier_slope(input),
        Operation::Leaf => ZERO_BITS,
    }
}

/// The graph with the gradient of tensor `t` set to ones.
pub open spec fn seeded(g: Seq<Node>, t: int) -> Seq<Node> {
    g.update(
        t,
        Node {
            data: g[t].data,
            shape: g[t].shape,
            grad: ones(g[t].data.len()),
            parents: g[t].parents,
            op: g[t].op,
        },
    )
}

/// The graph with the gradient of tensor `t` replaced.
pub open spec fn with_gradient(g: Seq<Node>, t: int, grad: Seq<u64>) -> Seq<Node> {
    g.update(
        t,
        Node { data: g[t].data, shape: g[t].shape, grad, parents: g[t].parents, op: g[t].op },
    )
}

/// What tensor `parent` holds after its child has handed on the gradient
/// `from`: at each element, what it had plus the product of the local
/// derivative and the child's gradient.
#[verifier::opaque]
pub open spec fn received(g: Seq<Node>, child: int, parent: int, from: Seq<u64>) -> Seq<u64> {
    Seq::new(
        g[parent].grad.len(),
        |e: int| sum(g[parent].grad[e], product(slope(g[child].op, g[parent].data[e]), from[e])),
    )
}

/// The gradient of parent `p` once its child `n` has handed on its own.
pub open spec fn handed_on(g: Seq<Node>, n: int, p: int) -> Seq<u64> {
    received(g, n, p, g[n].grad)
}

/// The graph after tensor `n` has handed its gradient on to the parents
/// listed from place `j` on.
pub open spec fn propagated_from(g: Seq<Node>, n: int, parents: Seq<usize>, j: nat) -> Seq<Node>
    decreases parents.len() - j,
{
    if j >= parents.len() {
        g
    } else {
        propagated_from(
            with_gradient(g, parents[j as int] as int, handed_on(g, n, parents[j as int] as int)),
            n,
            parents,
            j + 1,
        )
    }
}

/// The graph after tensor `n` has handed its gradient on to each of its
/// parents.
pub open spec fn propagated(g: Seq<Node>, n: int) -> Seq<Node> {
    propagated_from(g, n, g[n].parents, 0)
}

/// The graph after the tensors of `order`, from place `k` on, have handed
/// their gradients on, one after the other.
pub open spec fn passed(g: Seq<Node>, order: Seq<usize>, k: nat) -> Seq<Node>
    decreases order.len() - k,
{
    if k >= order.len() {
        g
    } else {
        passed(propagated(g, order[k as int] as int), order, k + 1)
    }
}

/// The graph after a backward pass from `root`: the gradient of the root
/// is set to ones; then every tensor that the pass reaches, each before
/// the tensors it was computed from, hands its gradient on to its
/// parents. `lemma_backward` says what each tensor holds in the end.
pub open spec fn backward_of(g: Seq<Node>, root: int) -> Seq<Node> {
    passed(seeded(g, root), visiting_order(g, root), 0)
}

impl Graph {
    /// The order in which a backward pass from `root` visits the graph,
    /// found with a visited set in one descending sweep.
    pub fn visit_order(&self, root: TensorRef) -> (order: Vec<usize>)
        requires
            self.wf(),
            root.0 < self@.len(),
        ensures
            order@ == visiting_order(self@, root.0 as int),
    {
        let ghost g = self@;
        let ghost r = root.0 as int;
        let mut visited: Vec<bool> = Vec::new();
        let mut i: usize = 0;
        while i <= root.0
            invariant
                i <= root.0 + 1,
                root.0 < self.nodes.len(),
                visited.len() == i,
                forall|n: int| 0 <= n < i ==> visited@[n] == (n == root.0),
            decreases root.0 + 1 - i,
        {
            visited.push(i == root.0);
            i += 1;
        }
        let mut order: Vec<usize> = Vec::new();
        let mut k: usize = root.0 + 1;
        while k > 0
            invariant
                g == self@,
                r == root.0,
                graph_wf(g),
                r < g.len(),
                k <= r + 1,
                visited.len() == r + 1,
                order@ == reached_down_to(g, r, k as int),
                forall|n: int|
                    0 <= n < k ==> visited@[n] == (n == r || feeds(g, r, n, k as int)),
            decreases k,
        {
            k -= 1;
            let ghost above = reached_down_to(g, r, k + 1);
            assert(visited@[k as int] == reaches(g, r, k as int));
            if visited[k] {
                order.push(k);
                let node = &self.nodes[k];
                assert(node@ == g[k as int]);
                assert(node_wf(g, k as int));
                let mut j: usize = 0;
                while j < node.parents.len()
                    invariant
                        j <= node.parents.len(),
                        node@ == g[k as int],
                        node_wf(g, k as int),
                        k <= r,
                        visited.len() == r + 1,
                        reaches(g, r, k as int),
                        forall|n: int|
                            0 <= n < k ==> visited@[n] == (n == r || feeds(g, r, n, k + 1)
                                || node.parents@.take(j as int).contains(n as usize)),
                    decreases node.parents.len() - j,
                {
                    let p = node.parents[j];
                    assert(node@.parents[j as int] < k);
                    let ghost before = visited@;
                    visited.set(p, true);
                    proof {
                        let shorter = node.parents@.take(j as int);
                        let longer = node.parents@.take(j + 1);
                        assert(longer =~= shorter.push(p));
                        assert forall|n: int| 0 <= n < k implies visited@[n] == (n == r || feeds(
                            g,
                            r,
                            n,
                            k + 1,
                        ) || longer.contains(n as usize)) by {
                            if shorter.contains(n as usize) {
                                let w = choose|w: int|
                                    0 <= w < shorter.len() && shorter[w] == n as usize;
                                assert(longer[w] == n as usize);
                            }
                            if n == p {
                                assert(longer[j as int] == p);
                            }
                            if longer.contains(n as usize) && n != p {
                                let w = choose|w: int|
                                    0 <= w < longer.len() && longer[w] == n as usize;
                                assert(shorter[w] == n as usize);
                            }
                        }
                    }
                    j += 1;
                }
                proof {
                    assert(node.parents@.take(node.parents@.len() as int) =~= node.parents@);
                }
            }
        }
        order
    }

    /// Tensor `n` hands its gradient on to each of its parents.
    fn propagate(&mut self, n: usize)
        requires
            old(self).wf(),
            n < old(self)@.len(),
        ensures
            final(self).wf(),
            final(self)@ == propagated(old(self)@, n as int),
            final(self)@.len() == old(self)@.len(),
    {
        let ghost start = self@;
        assert(self.nodes@[n as int]@ == start[n as int]);
        let parents = copy_shape(&self.nodes[n].parents);
        let op = self.nodes[n].op;
        let mut j: usize = 0;
        while j < parents.len()
            invariant
                self.wf(),
                j <= parents.len(),
                n < self@.len(),
                self@.len() == start.len(),
                self@[n as int].parents == parents@,
                self@[n as int].op == op,
                propagated_from(self@, n as int, parents@, j as nat) == propagated(
                    start,
                    n as int,
                ),
            decreases parents.len() - j,
        {
            let ghost before = self@;
            let p = parents[j];
            assert(node_wf(before, n as int));
            assert(before[n as int].parents[j as int] < n);
            assert(node_wf(before, p as int));
            assert(self.nodes@[p as int]@ == before[p as int]);
            assert(self.nodes@[n as int]@ == before[n as int]);
            let count = self.nodes[p].grad.len();
            let mut fresh: Vec<u64> = Vec::new();
            let mut e: usize = 0;
            while e < count
                invariant
                    e <= count,
                    p < n < self.nodes.len(),
                    self@ == before,
                    self.nodes@[p as int]@ == before[p as int],
                    self.nodes@[n as int]@ == before[n as int],
                    count == before[p as int].grad.len(),
                    count == before[p as int].data.len(),
                    count == before[n as int].grad.len(),
                    op == before[n as int].op,
                    fresh@.len() == e,
                    forall|i: int|
                        0 <= i < e ==> fresh@[i] == sum(
                            before[p as int].grad[i],
                            product(
                                slope(op, before[p as int].data[i]),
                                before[n as int].grad[i],
                            ),
                        ),
                decreases count - e,
            {
                let local = match op {
                    Operation::Relu => number_relu_slope(self.nodes[p].data[e]),
                    Operation::Leaf => ZERO_BITS,
                };
                let term = number_multiply(local, self.nodes[n].grad[e]);
                fresh.push(number_add(self.nodes[p].grad[e], term));
                e += 1;
            }
            proof {
                reveal(received);
                assert(fresh@ =~= handed_on(before, n as int, p as int));
            }
            self.nodes[p].grad = fresh;
            proof {
                assert(self@ =~= with_gradient(
                    before,
                    p as int,
                    handed_on(before, n as int, p as int),
                ));
                lemma_grads_keep_wf(before, self@);
            }
            j += 1;
        }
    }

    /// Makes a backward pass from `root`. `false`, and nothing changes,
    /// when the graph does not hold `root`.
    pub fn backward(&mut self, root: TensorRef) -> (done: bool)
        requires
            old(self).wf(),
        ensures
            final(self).wf(),
            done == (root.0 < old(self)@.len()),
            done ==> final(self)@ == backward_of(old(self)@, root.0 as int),
            !done ==> final(self)@ == old(self)@,
    {
        if root.0 >= self.nodes.len() {
            return false;
        }
        let ghost g = self@;
        let order = self.visit_order(root);
        proof {
            lemma_visiting_order(g, root.0 as int);
        }
        assert(self.nodes@[root.0 as int]@ == g[root.0 as int]);
        assert(node_wf(g, root.0 as int));
        let len = self.nodes[root.0].data.len();
        let seed = filled(len, ONE_BITS);
        self.nodes[root.0].grad = seed;
        proof {
            assert(self@ =~= seeded(g, root.0 as int));
            lemma_grads_keep_wf(g, self@);
        }
        let mut k: usize = 0;
        while k < order.len()
            invariant
                self.wf(),
                k <= order.len(),
                self@.len() == g.len(),
                root.0 < g.len(),
                forall|i: int| 0 <= i < order@.len() ==> order@[i] <= root.0,
                passed(self@, order@, k as nat) == passed(seeded(g, root.0 as int), order@, 0),
            decreases order.len() - k,
        {
            let n = order[k];
            self.propagate(n);
            k += 1;
        }
        true
    }
}

/// A tensor that is one of the parents of a reached tensor is reached.
pub proof fn lemma_parent_reached(g: Seq<Node>, root: int, c: int, q: int)
    requires
        0 <= q < c <= root,
        reaches(g, root, c),
        g[c].parents.contains(q as usize),
    ensures
        reaches(g, root, q),
{
    lemma_feeds_from(g, root, q, q + 1, c);
}

proof fn lemma_feeds_from(g: Seq<Node>, root: int, n: int, from: int, c: int)
    requires
        n < from <= c <= root,
        reaches(g, root, c),
        g[c].parents.contains(n as usize),
    ensures
        feeds(g, root, n, from),
    decreases c - from,
{
    if from < c {
        lemma_feeds_from(g, root, n, from + 1, c);
    }
}

/// A reached tensor other than the root is a parent of a reached tensor.
pub proof fn lemma_child_reached(g: Seq<Node>, root: int, n: int) -> (c: int)
    requires
        reaches(g, root, n),
        n != root,
    ensures
        n < c <= root,
        reaches(g, root, c),
        g[c].parents.contains(n as usize),
{
    lemma_feeds_witness(g, root, n, n + 1)
}

proof fn lemma_feeds_witness(g: Seq<Node>, root: int, n: int, from: int) -> (c: int)
    requires
        feeds(g, root, n, from),
    ensures
        from <= c <= root,
        n < c,
        reaches(g, root, c),
        g[c].parents.contains(n as usize),
    decreases root - from + 1,
{
    if reaches(g, root, from) && g[from].parents.contains(n as usize) {
        from
    } else {
        lemma_feeds_witness(g, root, n, from + 1)
    }
}

/// No tensor has more than one parent, so the tensors that a pass reaches
/// form a chain: each tensor of the visiting order but the last has the
/// next one as its parent, and the last has none.
pub proof fn lemma_order_is_chain(g: Seq<Node>, root: int, i: int)
    requires
        graph_wf(g),
        0 <= root < g.len() <= usize::MAX,
        0 <= i < visiting_order(g, root).len(),
    ensures
        i + 1 < visiting_order(g, root).len() ==> g[visiting_order(g, root)[i] as int].parents
            == seq![visiting_order(g, root)[i + 1]],
        i + 1 == visiting_order(g, root).len() ==> g[visiting_order(
            g,
            root,
        )[i] as int].parents.len() == 0,
    decreases i,
{
    let order = visiting_order(g, root);
    lemma_visiting_order(g, root);
    lemma_reached_down_to(g, root, 0);
    let c = order[i] as int;
    assert(order.contains(order[i]));
    assert(reaches(g, root, c));
    assert(node_wf(g, c));
    let parents = g[c].parents;
    assert(parents.len() <= 1);
    if parents.len() == 1 {
        let q = parents[0] as int;
        assert(parents.contains(q as usize));
        lemma_parent_reached(g, root, c, q);
        assert(order.contains(q as usize));
        let j = choose|j: int| 0 <= j < order.len() && order[j] == q as usize;
        assert(j > i);
    }
    if i + 1 < order.len() {
        let x = order[i + 1] as int;
        assert(order.contains(order[i + 1]));
        assert(reaches(g, root, x));
        assert(x < c);
        let y = lemma_child_reached(g, root, x);
        assert(order.contains(y as usize));
        let m = choose|m: int| 0 <= m < order.len() && order[m] == y as usize;
        assert(m <= i);
        let w = choose|w: int| 0 <= w < g[y].parents.len() && g[y].parents[w] == x as usize;
        if m < i {
            lemma_order_is_chain(g, root, m);
            assert(g[y].parents =~= seq![order[m + 1]]);
            assert(g[y].parents[w] == order[m + 1]);
            assert(order[m + 1] >= order[i]);
            assert(false);
        }
        assert(y == c);
        assert(parents.len() == 1);
        assert(w == 0);
        assert(parents =~= seq![order[i + 1]]);
    }
}

/// The tensors of `order` form a chain in `g`: they descend, each but the
/// last has the next one as its only parent, and the last has none.
pub open spec fn is_chain(g: Seq<Node>, order: Seq<usize>) -> bool {
    &&& forall|i: int, j: int| 0 <= i < j < order.len() ==> order[i] > order[j]
    &&& forall|i: int| 0 <= i < order.len() ==> (#[trigger] order[i]) < g.len()
    &&& forall|i: int|
        0 <= i < order.len() - 1 ==> (#[trigger] g[order[i] as int]).parents == seq![order[i + 1]]
    &&& order.len() > 0 ==> g[order.last() as int].parents.len() == 0
}

/// Two graphs hold the same tensors but for their gradients, which are
/// as long as they were.
pub open spec fn same_but_gradients(g: Seq<Node>, h: Seq<Node>) -> bool {
    &&& h.len() == g.len()
    &&& forall|i: int|
        0 <= i < g.len() ==> (#[trigger] h[i]).data == g[i].data && h[i].shape == g[i].shape
            && h[i].parents == g[i].parents && h[i].op == g[i].op && h[i].grad.len()
            == g[i].grad.len()
}

/// What a tensor receives depends on its own gradient and data and on
/// the operation of its child only, and is as long as its gradient.
pub proof fn lemma_received(g: Seq<Node>, h: Seq<Node>, child: int, parent: int, from: Seq<u64>)
    requires
        h[parent].grad == g[parent].grad,
        h[parent].data == g[parent].data,
        h[child].op == g[child].op,
    ensures
        received(h, child, parent, from) == received(g, child, parent, from),
        received(g, child, parent, from).len() == g[parent].grad.len(),
{
    reveal(received);
    assert(received(h, child, parent, from) =~= received(g, child, parent, from));
}

/// What the tensor at place `k` of a chain does when it hands its
/// gradient on: the next tensor of the chain receives it, and nothing
/// else changes; the last tensor of the chain changes nothing.
pub proof fn lemma_propagated(g: Seq<Node>, order: Seq<usize>, k: nat)
    requires
        graph_wf(g),
        is_chain(g, order),
        k < order.len(),
    ensures
        k + 1 < order.len() ==> propagated(g, order[k as int] as int) == with_gradient(
            g,
            order[k as int + 1] as int,
            handed_on(g, order[k as int] as int, order[k as int + 1] as int),
        ),
        k + 1 == order.len() ==> propagated(g, order[k as int] as int) == g,
        graph_wf(propagated(g, order[k as int] as int)),
        is_chain(propagated(g, order[k as int] as int), order),
        same_but_gradients(g, propagated(g, order[k as int] as int)),
{
    let n = order[k as int] as int;
    assert(order[k as int] < g.len());
    assert(node_wf(g, n));
    if k + 1 < order.len() {
        let p = order[k as int + 1] as int;
        assert(g[order[k as int] as int].parents == seq![order[k as int + 1]]);
        assert(seq![order[k as int + 1]][0] == order[k as int + 1]);
        assert(g[n].parents[0] < n);
        assert(node_wf(g, p));
        let fresh = handed_on(g, n, p);
        lemma_received(g, g, n, p, g[n].grad);
        let g1 = with_gradient(g, p, fresh);
        let parents = g[n].parents;
        assert(parents.len() == 1);
        assert(propagated_from(g1, n, parents, 1) == g1);
        assert(propagated_from(g, n, parents, 0) == propagated_from(g1, n, parents, 1));
        lemma_grads_keep_wf(g, g1);
        assert forall|i: int| 0 <= i < order.len() - 1 implies (#[trigger] g1[order[i] as int]).parents
            == seq![order[i + 1]] by {
            assert(g[order[i] as int].parents == seq![order[i + 1]]);
        }
    } else {
        assert(order.last() == order[k as int]);
        assert(g[n].parents.len() == 0);
    }
}

/// A pass along a chain changes nothing but gradients.
pub proof fn lemma_passed_shape(g: Seq<Node>, order: Seq<usize>, k: nat)
    requires
        graph_wf(g),
        is_chain(g, order),
        k <= order.len(),
    ensures
        same_but_gradients(g, passed(g, order, k)),
        graph_wf(passed(g, order, k)),
    decreases order.len() - k,
{
    if k < order.len() {
        lemma_propagated(g, order, k);
        let g1 = propagated(g, order[k as int] as int);
        lemma_passed_shape(g1, order, k + 1);
        let r = passed(g1, order, k + 1);
        assert forall|i: int| 0 <= i < g.len() implies (#[trigger] r[i]).data == g[i].data
            && r[i].shape == g[i].shape && r[i].parents == g[i].parents && r[i].op == g[i].op
            && r[i].grad.len() == g[i].grad.len() by {
            assert(g1[i].data == g[i].data);
        }
    }
}

/// A pass along a chain from place `k` on leaves every tensor as it was
/// that does not stand behind place `k`.
pub proof fn lemma_passed_keeps(g: Seq<Node>, order: Seq<usize>, k: nat, t: int)
    requires
        graph_wf(g),
        is_chain(g, order),
        k <= order.len(),
        0 <= t < g.len(),
        forall|j: int| k < j < order.len() ==> order[j] != t,
    ensures
        passed(g, order, k)[t] == g[t],
    decreases order.len() - k,
{
    if k < order.len() {
        lemma_propagated(g, order, k);
        let g1 = propagated(g, order[k as int] as int);
        if k + 1 < order.len() {
            assert(order[k as int + 1] != t);
        }
        lemma_passed_keeps(g1, order, k + 1, t);
    }
}

/// After a pass along a chain from place `k` on, the tensor at a place
/// `j` behind `k` has received the final gradient of the tensor before
/// it.
pub proof fn lemma_passed_received(g: Seq<Node>, order: Seq<usize>, k: nat, j: int)
    requires
        graph_wf(g),
        is_chain(g, order),
        k < j < order.len(),
    ensures
        passed(g, order, k)[order[j] as int].grad == received(
            g,
            order[j - 1] as int,
            order[j] as int,
            passed(g, order, k)[order[j - 1] as int].grad,
        ),
    decreases order.len() - k,
{
    lemma_propagated(g, order, k);
    let n = order[k as int] as int;
    let g1 = propagated(g, n);
    let r = passed(g, order, k);
    assert(r == passed(g1, order, k + 1));
    assert(order[j] < g.len());
    assert(order[j - 1] < g.len());
    if j == k + 1 {
        let p = order[j] as int;
        lemma_passed_keeps(g1, order, k + 1, p);
        lemma_passed_keeps(g, order, k, n);
    } else {
        let child = order[j - 1] as int;
        let parent = order[j] as int;
        lemma_passed_received(g1, order, k + 1, j);
        assert(order[j] != order[k as int + 1]);
        assert(g1[parent] == g[parent]);
        lemma_received(g, g1, child, parent, r[child].grad);
    }
}

/// What a backward pass leaves. It changes nothing but gradients. The
/// gradient of the root is ones. A tensor that the pass does not reach
/// keeps its gradient. A tensor that is reached as the parent of a tensor
/// holds, at each element, the gradient it had plus the product of the
/// local derivative and the final gradient of that tensor: each reached
/// tensor receives the contribution of its child once.
pub proof fn lemma_backward(g: Seq<Node>, root: int)
    requires
        graph_wf(g),
        0 <= root < g.len() <= usize::MAX,
    ensures
        graph_wf(backward_of(g, root)),
        same_but_gradients(g, backward_of(g, root)),
        backward_of(g, root)[root].grad == ones(g[root].data.len()),
        forall|t: int|
            0 <= t < g.len() && !reaches(g, root, t) ==> #[trigger] backward_of(g, root)[t]
                == g[t],
        forall|c: int|
            0 <= c <= root && reaches(g, root, c) && g[c].parents.len() > 0 ==> (
            #[trigger] backward_of(g, root)[g[c].parents[0] as int]).grad == received(
                g,
                c,
                g[c].parents[0] as int,
                backward_of(g, root)[c].grad,
            ),
{
    let order = visiting_order(g, root);
    let g0 = seeded(g, root);
    let h = backward_of(g, root);
    lemma_visiting_order(g, root);
    lemma_reached_down_to(g, root, 0);
    assert(node_wf(g, root));
    lemma_grads_keep_wf(g, g0);
    lemma_chain(g, root);
    assert(is_chain(g0, order)) by {
        assert forall|i: int| 0 <= i < order.len() - 1 implies (#[trigger] g0[order[i] as int]).parents
            == seq![order[i + 1]] by {
            assert(g[order[i] as int].parents == seq![order[i + 1]]);
        }
    }
    lemma_passed_shape(g0, order, 0);
    assert forall|i: int| 0 <= i < g.len() implies (#[trigger] h[i]).data == g[i].data
        && h[i].shape == g[i].shape && h[i].parents == g[i].parents && h[i].op == g[i].op
        && h[i].grad.len() == g[i].grad.len() by {
        assert(g0[i].data == g[i].data);
    }
    assert(h[root] == g0[root]) by {
        assert(forall|j: int| 0 < j < order.len() ==> order[j] != root);
        lemma_passed_keeps(g0, order, 0, root);
    }
    assert forall|t: int| 0 <= t < g.len() && !reaches(g, root, t) implies #[trigger] h[t]
        == g[t] by {
        assert(!order.contains(t as usize));
        assert(forall|j: int| 0 < j < order.len() ==> order[j] != t);
        lemma_passed_keeps(g0, order, 0, t);
    }
    assert forall|c: int|
        0 <= c <= root && reaches(g, root, c) && g[c].parents.len() > 0 implies (#[trigger] h[g[c].parents[0] as int]).grad
        == received(g, c, g[c].parents[0] as int, h[c].grad) by {
        assert(order.contains(c as usize));
        let i = choose|i: int| 0 <= i < order.len() && order[i] == c as usize;
        if i + 1 == order.len() {
            assert(order.last() == order[i]);
        }
        let p = order[i + 1] as int;
        assert(g[order[i] as int].parents == seq![order[i + 1]]);
        assert(seq![order[i + 1]][0] == order[i + 1]);
        lemma_passed_received(g0, order, 0, i + 1);
        assert(order[i + 1] < order[0]);
        lemma_received(g, g0, c, p, h[c].grad);
    }
}

/// The visiting order of a pass is a chain that starts at the root.
pub proof fn lemma_chain(g: Seq<Node>, root: int)
    requires
        graph_wf(g),
        0 <= root < g.len() <= usize::MAX,
    ensures
        is_chain(g, visiting_order(g, root)),
        visiting_order(g, root).len() > 0,
        visiting_order(g, root)[0] == root,
{
    let order = visiting_order(g, root);
    lemma_visiting_order(g, root);
    lemma_reached_down_to(g, root, 0);
    assert(reaches(g, root, root));
    assert(order.contains(root as usize));
    let at = choose|at: int| 0 <= at < order.len() && order[at] == root as usize;
    if at > 0 {
        assert(order[0] > order[at]);
    }
    assert forall|i: int| 0 <= i < order.len() - 1 implies (#[trigger] g[order[i] as int]).parents
        == seq![order[i + 1]] by {
        lemma_order_is_chain(g, root, i);
    }
    lemma_order_is_chain(g, root, order.len() - 1);
}

/// A graph that differs from a well-formed one in gradients only, each as
/// long as before, is well formed.
pub proof fn lemma_grads_keep_wf(g: Seq<Node>, h: Seq<Node>)
    requires
        graph_wf(g),
        h.len() == g.len(),
        forall|i: int|
            0 <= i < g.len() ==> (#[trigger] h[i]).data == g[i].data && h[i].shape == g[i].shape
                && h[i].parents == g[i].parents && h[i].op == g[i].op && h[i].grad.len()
                == g[i].grad.len(),
    ensures
        graph_wf(h),
{
    assert forall|i: int| 0 <= i < h.len() implies node_wf(h, i) by {
        assert(node_wf(g, i));
        assert forall|j: int| 0 <= j < h[i].parents.len() implies h[(#[trigger] h[i].parents[j]) as int].data.len()
            == h[i].data.len() by {
            assert(g[i].parents[j] < i);
        }
    }
}

/// Adding a tensor that is well formed at the end of a well-formed graph
/// gives a well-formed graph.
pub proof fn lemma_push_keeps_wf(g: Seq<Node>, node: Node)
    requires
        graph_wf(g),
        node_wf(g.push(node), g.len() as int),
    ensures
        graph_wf(g.push(node)),
{
    let h = g.push(node);
    assert forall|i: int| 0 <= i < h.len() implies node_wf(h, i) by {
        if i < g.len() {
            assert(node_wf(g, i));
            assert(h[i] == g[i]);
            assert forall|j: int| 0 <= j < h[i].parents.len() implies h[(#[trigger] h[i].parents[j]) as int].data.len()
                == h[i].data.len() by {
                assert(g[i].parents[j] < i);
            }
        }
    }
}

} // verus!
