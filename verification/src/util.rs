//! Dense 2D tables used as scratch by the line solver, and the priority set
//! that orders the lines still worth revisiting.

use vstd::prelude::*;

verus! {

/// A dense 2D square table, indexed `(column, row)` and stored row-major in
/// a flat vector.
pub struct EdgeList<T> {
    items: Vec<T>,
    size: usize,
}

impl<T> EdgeList<T> {
    /// The table holds exactly `size * size` items.
    pub closed spec fn wf(&self) -> bool {
        self.items@.len() == self.size * self.size
    }

    pub closed spec fn spec_size(&self) -> int {
        self.size as int
    }

    /// The entry in column `i`, row `j`.
    pub closed spec fn spec_get(&self, i: int, j: int) -> T {
        self.items@[i + j * self.size]
    }

    proof fn lemma_index(&self, i: int, j: int)
        requires
            self.wf(),
            0 <= i < self.spec_size(),
            0 <= j < self.spec_size(),
        ensures
            0 <= i + j * self.spec_size() < self.items@.len(),
            i + j * self.spec_size() <= usize::MAX,
    {
        assert(self.items.len() == self.items@.len());
        let w = self.size as int;
        assert(0 <= i + j * w && i + j * w < w * w) by (nonlinear_arith)
            requires
                0 <= i < w,
                0 <= j < w,
        ;
    }

    /// Build a square table of the given size with every entry set to `init`.
    pub fn new(size: usize, init: T) -> (r: EdgeList<T>) where T: Copy
        requires
            size * size <= usize::MAX,
        ensures
            r.wf(),
            r.spec_size() == size,
            forall|i: int, j: int|
                0 <= i < size && 0 <= j < size ==> #[trigger] r.spec_get(i, j) == init,
    {
        let n = size * size;
        let mut items: Vec<T> = Vec::new();
        let mut k: usize = 0;
        while k < n
            invariant
                k <= n,
                items@.len() == k,
                forall|q: int| 0 <= q < k ==> items@[q] == init,
            decreases n - k,
        {
            items.push(init);
            k = k + 1;
        }
        let r = EdgeList { items, size };
        proof {
            assert forall|i: int, j: int|
                0 <= i < size && 0 <= j < size implies #[trigger] r.spec_get(i, j) == init by {
                r.lemma_index(i, j);
            }
        }
        r
    }

    /// Read the entry in column `i`, row `j`.
    pub fn get(&self, i: usize, j: usize) -> (r: &T)
        requires
            self.wf(),
            i < self.spec_size(),
            j < self.spec_size(),
        ensures
            *r == self.spec_get(i as int, j as int),
    {
        proof {
            self.lemma_index(i as int, j as int);
        }
        &self.items[i + j * self.size]
    }



    /// Overwrite the entry in column `i`, row `j`.
    pub fn set(&mut self, i: usize, j: usize, value: T)
        requires
            old(self).wf(),
            i < old(self).spec_size(),
            j < old(self).spec_size(),
        ensures
            final(self).wf(),
            final(self).spec_size() == old(self).spec_size(),
            final(self).spec_get(i as int, j as int) == value,
            forall|i2: int, j2: int|
                0 <= i2 < final(self).spec_size() && 0 <= j2 < final(self).spec_size() && !(i2 == i
                    && j2 == j) ==> #[trigger] final(self).spec_get(i2, j2) == old(self).spec_get(
                    i2,
                    j2,
                ),
    {
        proof {
            self.lemma_index(i as int, j as int);
        }
        let idx = i + j * self.size;
        self.items[idx] = value;
        proof {
            assert forall|i2: int, j2: int|
                0 <= i2 < self.spec_size() && 0 <= j2 < self.spec_size() && !(i2 == i && j2
                    == j) implies #[trigger] self.spec_get(i2, j2) == old(self).spec_get(i2, j2) by {
                self.lemma_index(i2, j2);
                if i2 + j2 * self.spec_size() == i + j * self.spec_size() {
                    let w = self.size as int;
                    assert(j2 == j) by (nonlinear_arith)
                        requires
                            0 <= i2 < w,
                            0 <= i < w,
                            i2 + j2 * w == i + j * w,
                    ;
                }
            }
        }
    }
}

/// A dense 2D rectangular table of nodes, indexed `(column, row)` and stored
/// row-major in a flat vector.
pub struct NodeList<T> {
    items: Vec<T>,
    width: usize,
    height: usize,
}

impl<T> NodeList<T> {
    /// The table holds exactly `width * height` items.
    pub closed spec fn wf(&self) -> bool {
        self.items@.len() == self.width * self.height
    }

    pub closed spec fn spec_width(&self) -> int {
        self.width as int
    }

    pub closed spec fn spec_height(&self) -> int {
        self.height as int
    }

    /// The entry in column `i`, row `j`.
    pub closed spec fn spec_get(&self, i: int, j: int) -> T {
        self.items@[i + j * self.width]
    }

    proof fn lemma_index(&self, i: int, j: int)
        requires
            self.wf(),
            0 <= i < self.spec_width(),
            0 <= j < self.spec_height(),
        ensures
            0 <= i + j * self.spec_width() < self.items@.len(),
            i + j * self.spec_width() <= usize::MAX,
    {
        assert(self.items.len() == self.items@.len());
        let w = self.width as int;
        let h = self.height as int;
        assert(0 <= i + j * w && i + j * w < w * h) by (nonlinear_arith)
            requires
                0 <= i < w,
                0 <= j < h,
        ;
    }

    proof fn lemma_index_inj(&self, i1: int, j1: int, i2: int, j2: int)
        requires
            0 <= i1 < self.spec_width(),
            0 <= j1 < self.spec_height(),
            0 <= i2 < self.spec_width(),
            0 <= j2 < self.spec_height(),
            i1 + j1 * self.spec_width() == i2 + j2 * self.spec_width(),
        ensures
            i1 == i2 && j1 == j2,
    {
        let w = self.width as int;
        assert(j1 == j2) by (nonlinear_arith)
            requires
                0 <= i1 < w,
                0 <= i2 < w,
                i1 + j1 * w == i2 + j2 * w,
        ;
    }

    /// Build a table of the given dimensions with every entry set to `init`.
    pub fn new(width: usize, height: usize, init: T) -> (r: NodeList<T>) where T: Copy
        requires
            width * height <= usize::MAX,
        ensures
            r.wf(),
            r.spec_width() == width,
            r.spec_height() == height,
            forall|i: int, j: int|
                0 <= i < width && 0 <= j < height ==> #[trigger] r.spec_get(i, j) == init,
    {
        let n = width * height;
        let mut items: Vec<T> = Vec::new();
        let mut k: usize = 0;
        while k < n
            invariant
                k <= n,
                items@.len() == k,
                forall|q: int| 0 <= q < k ==> items@[q] == init,
            decreases n - k,
        {
            items.push(init);
            k = k + 1;
        }
        let r = NodeList { items, width, height };
        proof {
            assert forall|i: int, j: int|
                0 <= i < width && 0 <= j < height implies #[trigger] r.spec_get(i, j) == init by {
                r.lemma_index(i, j);
            }
        }
        r
    }

    /// The number of columns of the table.
    pub fn width(&self) -> (r: usize)
        ensures
            r == self.spec_width(),
    {
        self.width
    }

    /// The number of rows of the table.
    pub fn height(&self) -> (r: usize)
        ensures
            r == self.spec_height(),
    {
        self.height
    }

    /// Read the entry in column `i`, row `j`.
    pub fn get(&self, i: usize, j: usize) -> (r: &T)
        requires
            self.wf(),
            i < self.spec_width(),
            j < self.spec_height(),
        ensures
            *r == self.spec_get(i as int, j as int),
    {
        proof {
            self.lemma_index(i as int, j as int);
        }
        &self.items[i + j * self.width]
    }



    /// Overwrite the entry in column `i`, row `j`.
    pub fn set(&mut self, i: usize, j: usize, value: T)
        requires
            old(self).wf(),
            i < old(self).spec_width(),
            j < old(self).spec_height(),
        ensures
            final(self).wf(),
            final(self).spec_width() == old(self).spec_width(),
            final(self).spec_height() == old(self).spec_height(),
            final(self).spec_get(i as int, j as int) == value,
            forall|i2: int, j2: int|
                0 <= i2 < final(self).spec_width() && 0 <= j2 < final(self).spec_height() && !(i2
                    == i && j2 == j) ==> #[trigger] final(self).spec_get(i2, j2) == old(
                    self,
                ).spec_get(i2, j2),
    {
        proof {
            self.lemma_index(i as int, j as int);
        }
        let idx = i + j * self.width;
        self.items[idx] = value;
        proof {
            assert forall|i2: int, j2: int|
                0 <= i2 < self.spec_width() && 0 <= j2 < self.spec_height() && !(i2 == i && j2
                    == j) implies #[trigger] self.spec_get(i2, j2) == old(self).spec_get(i2, j2) by {
                self.lemma_index(i2, j2);
                if i2 + j2 * self.spec_width() == i + j * self.spec_width() {
                    self.lemma_index_inj(i2, j2, i as int, j as int);
                }
            }
        }
    }
}

} // verus!
