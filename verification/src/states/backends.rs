use vstd::prelude::*;

verus! {

/// The (i, j) entry of a row-major n-by-n table.
pub fn entry_at<E: Copy>(entries: &Vec<E>, n: usize, i: usize, j: usize) -> (r: E)
    requires
        i < n,
        j < n,
        entries@.len() == n * n,
    ensures
        r == entries@[i * n + j],
{
    let len = entries.len();
    proof {
        assert(i * n + j < n * n) by (nonlinear_arith)
            requires
                i < n,
                j < n,
        ;
        assert(len == n * n);
    }
    entries[i * n + j]
}

#[verifier::external_body]
#[verifier::reject_recursive_types(E)]
pub struct MatStore<E>(faer::Mat<E>);

/// A square faer matrix together with the verified row-major entry table it
/// was built from.
#[verifier::reject_recursive_types(E)]
pub struct MatBacked<E> {
    n: usize,
    entries: Vec<E>,
    store: MatStore<E>,
}

impl<E: Copy> MatBacked<E> {
    /// The matrix dimension.
    pub closed spec fn dim(&self) -> int {
        self.n as int
    }

    /// The row-major entries: entry (i, j) stands at position i * dim + j.
    pub closed spec fn model(&self) -> Seq<E> {
        self.entries@
    }

    pub open spec fn wf(&self) -> bool {
        self.model().len() == self.dim() * self.dim()
    }

    /// Builds the n-by-n matrix whose (i, j) entry is entries[i * n + j].
    pub fn from_entries(n: usize, entries: Vec<E>) -> (r: Self)
        requires
            entries@.len() == n * n,
        ensures
            r.dim() == n,
            r.model() == entries@,
            r.wf(),
    {
        let store = mat_store_from_entries(n, &entries);
        MatBacked { n, entries, store }
    }

    /// The matrix dimension.
    pub fn size(&self) -> (r: usize)
        ensures
            r == self.dim(),
    {
        self.n
    }

    /// The row-major entry table.
    pub fn entries(&self) -> (r: &Vec<E>)
        ensures
            r@ == self.model(),
    {
        &self.entries
    }

    /// The (i, j) entry, read back from the backend matrix itself; nothing
    /// when out of bounds.
    pub fn entry(&self, i: usize, j: usize) -> (r: Option<E>)
        requires
            self.wf(),
        ensures
            i < self.dim() && j < self.dim() ==> r == Some(self.model()[i * self.dim() + j]),
            !(i < self.dim() && j < self.dim()) ==> r is None,
    {
        if i < self.n && j < self.n {
            Some(self.read_store(i, j))
        } else {
            None
        }
    }

    /// Relies on faer's index operator returning element (i, j); the store
    /// is only built by from_entries, whose faer::Mat::from_fn call filled
    /// element (i, j) with entries[i * n + j].
    #[verifier::external_body]
    fn read_store(&self, i: usize, j: usize) -> (r: E)
        requires
            self.wf(),
            i < self.dim(),
            j < self.dim(),
        ensures
            r == self.model()[i * self.dim() + j],
    {
        self.store.0[(i, j)]
    }
}

/// Relies on faer::Mat::from_fn building an nrows-by-ncols matrix whose
/// element (i, j) is f(i, j).
#[verifier::external_body]
fn mat_store_from_entries<E: Copy>(n: usize, entries: &Vec<E>) -> (r: MatStore<E>)
    requires
        entries@.len() == n * n,
{
    MatStore(faer::Mat::from_fn(n, n, |i, j| entry_at(entries, n, i, j)))
}

#[verifier::external_body]
#[verifier::reject_recursive_types(E)]
pub struct DMatrixStore<E>(nalgebra::DMatrix<E>);

/// A square dynamically-sized nalgebra matrix together with the verified
/// row-major entry table it was built from.
#[verifier::reject_recursive_types(E)]
pub struct DMatrixBacked<E> {
    n: usize,
    entries: Vec<E>,
    store: DMatrixStore<E>,
}

impl<E: Copy + nalgebra::Scalar> DMatrixBacked<E> {
    /// The matrix dimension.
    pub closed spec fn dim(&self) -> int {
        self.n as int
    }

    /// The row-major entries: entry (i, j) stands at position i * dim + j.
    pub closed spec fn model(&self) -> Seq<E> {
        self.entries@
    }

    pub open spec fn wf(&self) -> bool {
        self.model().len() == self.dim() * self.dim()
    }

    /// Builds the n-by-n matrix whose (i, j) entry is entries[i * n + j].
    pub fn from_entries(n: usize, entries: Vec<E>) -> (r: Self)
        requires
            entries@.len() == n * n,
        ensures
            r.dim() == n,
            r.model() == entries@,
            r.wf(),
    {
        let store = dmatrix_store_from_entries(n, &entries);
        DMatrixBacked { n, entries, store }
    }

    /// The matrix dimension.
    pub fn size(&self) -> (r: usize)
        ensures
            r == self.dim(),
    {
        self.n
    }

    /// The row-major entry table.
    pub fn entries(&self) -> (r: &Vec<E>)
        ensures
            r@ == self.model(),
    {
        &self.entries
    }

    /// The (i, j) entry, read back from the backend matrix itself; nothing
    /// when out of bounds.
    pub fn entry(&self, i: usize, j: usize) -> (r: Option<E>)
        requires
            self.wf(),
        ensures
            i < self.dim() && j < self.dim() ==> r == Some(self.model()[i * self.dim() + j]),
            !(i < self.dim() && j < self.dim()) ==> r is None,
    {
        if i < self.n && j < self.n {
            Some(self.read_store(i, j))
        } else {
            None
        }
    }

    /// Relies on nalgebra's index operator returning element (i, j); the
    /// store is only built by from_entries, whose DMatrix::from_fn call
    /// filled element (i, j) with entries[i * n + j].
    #[verifier::external_body]
    fn read_store(&self, i: usize, j: usize) -> (r: E)
        requires
            self.wf(),
            i < self.dim(),
            j < self.dim(),
        ensures
            r == self.model()[i * self.dim() + j],
    {
        self.store.0[(i, j)]
    }
}

/// Relies on nalgebra::DMatrix::from_fn building an nrows-by-ncols matrix
/// whose element (i, j) is f(i, j).
#[verifier::external_body]
fn dmatrix_store_from_entries<E: Copy + nalgebra::Scalar>(n: usize, entries: &Vec<E>) -> (r:
    DMatrixStore<E>)
    requires
        entries@.len() == n * n,
{
    DMatrixStore(nalgebra::DMatrix::from_fn(n, n, |i, j| entry_at(entries, n, i, j)))
}

#[verifier::external_body]
#[verifier::reject_recursive_types(E)]
pub struct SMatrixStore<E, const N: usize>(nalgebra::SMatrix<E, N, N>);

/// A square statically-sized nalgebra matrix together with the verified
/// row-major entry table it was built from.
#[verifier::reject_recursive_types(E)]
pub struct SMatrixBacked<E, const N: usize> {
    entries: Vec<E>,
    store: SMatrixStore<E, N>,
}

impl<E: Copy + nalgebra::Scalar, const N: usize> SMatrixBacked<E, N> {
    /// The matrix dimension.
    pub open spec fn dim(&self) -> int {
        N as int
    }

    /// The row-major entries: entry (i, j) stands at position i * dim + j.
    pub closed spec fn model(&self) -> Seq<E> {
        self.entries@
    }

    pub open spec fn wf(&self) -> bool {
        self.model().len() == self.dim() * self.dim()
    }

    /// Builds the N-by-N matrix whose (i, j) entry is entries[i * N + j].
    pub fn from_entries(entries: Vec<E>) -> (r: Self)
        requires
            entries@.len() == N * N,
        ensures
            r.dim() == N,
            r.model() == entries@,
            r.wf(),
    {
        let store = smatrix_store_from_entries(&entries);
        SMatrixBacked { entries, store }
    }

    /// The matrix dimension.
    pub fn size(&self) -> (r: usize)
        ensures
            r == self.dim(),
    {
        N
    }

    /// The row-major entry table.
    pub fn entries(&self) -> (r: &Vec<E>)
        ensures
            r@ == self.model(),
    {
        &self.entries
    }

    /// The (i, j) entry, read back from the backend matrix itself; nothing
    /// when out of bounds.
    pub fn entry(&self, i: usize, j: usize) -> (r: Option<E>)
        requires
            self.wf(),
        ensures
            i < self.dim() && j < self.dim() ==> r == Some(self.model()[i * self.dim() + j]),
            !(i < self.dim() && j < self.dim()) ==> r is None,
    {
        if i < N && j < N {
            Some(self.read_store(i, j))
        } else {
            None
        }
    }

    /// Relies on nalgebra's index operator returning element (i, j); the
    /// store is only built by from_entries, whose SMatrix::from_fn call
    /// filled element (i, j) with entries[i * N + j].
    #[verifier::external_body]
    fn read_store(&self, i: usize, j: usize) -> (r: E)
        requires
            self.wf(),
            i < self.dim(),
            j < self.dim(),
        ensures
            r == self.model()[i * self.dim() + j],
    {
        self.store.0[(i, j)]
    }
}

/// Relies on nalgebra::SMatrix::from_fn building an N-by-N matrix whose
/// element (i, j) is f(i, j).
#[verifier::external_body]
fn smatrix_store_from_entries<E: Copy + nalgebra::Scalar, const N: usize>(entries: &Vec<E>) -> (r:
    SMatrixStore<E, N>)
    requires
        entries@.len() == N * N,
{
    SMatrixStore(nalgebra::SMatrix::from_fn(|i, j| entry_at(entries, N, i, j)))
}

#[verifier::external_body]
#[verifier::reject_recursive_types(E)]
pub struct Array2Store<E>(ndarray::Array2<E>);

/// A square ndarray matrix together with the verified row-major entry table
/// it was built from.
#[verifier::reject_recursive_types(E)]
pub struct Array2Backed<E> {
    n: usize,
    entries: Vec<E>,
    store: Array2Store<E>,
}

impl<E: Copy> Array2Backed<E> {
    /// The matrix dimension.
    pub closed spec fn dim(&self) -> int {
        self.n as int
    }

    /// The row-major entries: entry (i, j) stands at position i * dim + j.
    pub closed spec fn model(&self) -> Seq<E> {
        self.entries@
    }

    pub open spec fn wf(&self) -> bool {
        self.model().len() == self.dim() * self.dim()
    }

    /// Builds the n-by-n matrix whose (i, j) entry is entries[i * n + j].
    pub fn from_entries(n: usize, entries: Vec<E>) -> (r: Self)
        requires
            entries@.len() == n * n,
        ensures
            r.dim() == n,
            r.model() == entries@,
            r.wf(),
    {
        let store = array2_store_from_entries(n, &entries);
        Array2Backed { n, entries, store }
    }

    /// The matrix dimension.
    pub fn size(&self) -> (r: usize)
        ensures
            r == self.dim(),
    {
        self.n
    }

    /// The row-major entry table.
    pub fn entries(&self) -> (r: &Vec<E>)
        ensures
            r@ == self.model(),
    {
        &self.entries
    }

    /// The (i, j) entry, read back from the backend matrix itself; nothing
    /// when out of bounds.
    pub fn entry(&self, i: usize, j: usize) -> (r: Option<E>)
        requires
            self.wf(),
        ensures
            i < self.dim() && j < self.dim() ==> r == Some(self.model()[i * self.dim() + j]),
            !(i < self.dim() && j < self.dim()) ==> r is None,
    {
        if i < self.n && j < self.n {
            Some(self.read_store(i, j))
        } else {
            None
        }
    }

    /// Relies on ndarray's index operator returning element [i, j]; the
    /// store is only built by from_entries, whose Array2::from_shape_fn call
    /// filled element (i, j) with entries[i * n + j].
    #[verifier::external_body]
    fn read_store(&self, i: usize, j: usize) -> (r: E)
        requires
            self.wf(),
            i < self.dim(),
            j < self.dim(),
        ensures
            r == self.model()[i * self.dim() + j],
    {
        self.store.0[[i, j]]
    }
}

/// Relies on ndarray::Array2::from_shape_fn building a rows-by-columns array
/// whose element (i, j) is f((i, j)).
#[verifier::external_body]
fn array2_store_from_entries<E: Copy>(n: usize, entries: &Vec<E>) -> (r: Array2Store<E>)
    requires
        entries@.len() == n * n,
{
    Array2Store(ndarray::Array2::from_shape_fn((n, n), |(i, j)| entry_at(entries, n, i, j)))
}

} // verus!
