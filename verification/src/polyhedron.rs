//! Indexed polygon meshes.
//!
//! A mesh keeps one flat buffer of per-vertex data, cut into fixed-width
//! records as its descriptor dictates, and a face table. Faces are stored
//! either as a flat run of triangle corner offsets (no arity table), or as a
//! run of offsets cut by an arity table, one entry per polygon. Polygons of
//! four or more corners triangulate as a fan around their first corner.

use vstd::prelude::*;

verus! {

/// Describes the layout of one vertex record: how many buffer entries each
/// vertex occupies.
#[derive(Clone, Copy, PartialEq, Eq, Structural, Debug)]
pub struct VertexDescriptor {
    length: usize,
}

impl VertexDescriptor {
    /// The width of one vertex record.
    pub closed spec fn length_spec(self) -> usize {
        self.length
    }

    /// A descriptor for vertex records of `length` entries.
    pub fn new(length: usize) -> (r: Self)
        requires
            length >= 1,
        ensures
            r.length_spec() == length,
    {
        VertexDescriptor { length }
    }

    /// The width of one vertex record.
    pub fn length(&self) -> (r: usize)
        ensures
            r == self.length_spec(),
    {
        self.length
    }
}

/// An indexed mesh of vertices and faces over payload entries of type `D`.
pub struct Mesh<D> {
    vert_data: Vec<D>,
    vert_descriptor: VertexDescriptor,
    face_indices: Vec<usize>,
    face_arities: Vec<usize>,
}

/// Sum of a sequence of arities.
pub open spec fn arity_sum(s: Seq<usize>) -> int
    decreases s.len(),
{
    if s.len() == 0 {
        0int
    } else {
        arity_sum(s.drop_last()) + s.last()
    }
}

/// Offset of face `i` into the face-index buffer, under an arity table.
pub open spec fn face_start(s: Seq<usize>, i: int) -> int {
    arity_sum(s.subrange(0, i))
}

/// The corner offsets of face `t + 1` start where face `t`'s end.
proof fn lemma_face_start_step(s: Seq<usize>, i: int)
    requires
        0 <= i < s.len(),
    ensures
        face_start(s, i + 1) == face_start(s, i) + s[i],
{
    assert(s.subrange(0, i + 1).drop_last() =~= s.subrange(0, i));
    assert(s.subrange(0, i + 1).last() == s[i]);
}

/// Offsets into the corner buffer never run backwards.
proof fn lemma_face_start_nonneg(s: Seq<usize>, i: int)
    requires
        0 <= i <= s.len(),
    ensures
        face_start(s, i) >= 0,
    decreases i,
{
    if i == 0 {
        assert(s.subrange(0, 0) =~= Seq::<usize>::empty());
    } else {
        lemma_face_start_nonneg(s, i - 1);
        lemma_face_start_step(s, i - 1);
    }
}

/// Every face's corner run ends within the summed arities.
proof fn lemma_face_start_upper(s: Seq<usize>, i: int)
    requires
        0 <= i <= s.len(),
    ensures
        face_start(s, i) <= arity_sum(s),
        i < s.len() ==> face_start(s, i) + s[i] <= arity_sum(s),
    decreases s.len() - i,
{
    if i == s.len() {
        assert(s.subrange(0, s.len() as int) =~= s);
    } else {
        lemma_face_start_step(s, i);
        lemma_face_start_upper(s, i + 1);
    }
}

/// Nonnegative arities sum to a nonnegative total, one face at a time.
proof fn lemma_face_start_bounds(s: Seq<usize>, i: int)
    requires
        0 <= i <= s.len(),
    ensures
        face_start(s, i) >= 0,
        face_start(s, i) <= arity_sum(s),
        i < s.len() ==> face_start(s, i) + s[i] <= arity_sum(s),
{
    lemma_face_start_nonneg(s, i);
    lemma_face_start_upper(s, i);
}

impl<D: Copy> Mesh<D> {
    /// The vertex record width of this mesh.
    pub closed spec fn length_of(self) -> int {
        self.vert_descriptor.length_spec() as int
    }

    /// The flat vertex buffer.
    pub closed spec fn vert_data_spec(self) -> Seq<D> {
        self.vert_data@
    }

    /// The flat face-corner buffer.
    pub closed spec fn face_indices_spec(self) -> Seq<usize> {
        self.face_indices@
    }

    /// The arity table; empty means the corner buffer is a flat run of
    /// triangles.
    pub closed spec fn face_arities_spec(self) -> Seq<usize> {
        self.face_arities@
    }

    /// A corner offset is usable when a full vertex record fits behind it.
    pub open spec fn index_ok(self, idx: int) -> bool {
        0 <= idx && idx + self.length_of() <= self.vert_data_spec().len()
    }

    /// Well-formedness: a positive record width, every stored corner offset
    /// usable, and an arity table (when present) that accounts for the whole
    /// corner buffer.
    pub open spec fn wf(self) -> bool {
        &&& self.length_of() >= 1
        &&& forall|j: int|
            0 <= j < self.face_indices_spec().len() ==> self.index_ok(
                #[trigger] self.face_indices_spec()[j] as int,
            )
        &&& (self.face_arities_spec().len() == 0 || arity_sum(self.face_arities_spec())
            == self.face_indices_spec().len())
    }

    /// The faces as sequences of corner offsets: flat triangles when no
    /// arity table is present, else one slice of the corner buffer per
    /// arity entry.
    pub open spec fn faces_spec(self) -> Seq<Seq<usize>> {
        if self.face_arities_spec().len() == 0 {
            Seq::new(
                (self.face_indices_spec().len() / 3) as nat,
                |i: int| self.face_indices_spec().subrange(3 * i, 3 * i + 3),
            )
        } else {
            Seq::new(
                self.face_arities_spec().len(),
                |i: int|
                    self.face_indices_spec().subrange(
                        face_start(self.face_arities_spec(), i),
                        face_start(self.face_arities_spec(), i)
                            + self.face_arities_spec()[i],
                    ),
            )
        }
    }

    /// The vertex record starting at corner offset `idx`.
    pub open spec fn window(self, idx: int) -> Seq<D> {
        self.vert_data_spec().subrange(idx, idx + self.length_of())
    }

    /// An empty mesh over the given vertex layout.
    pub fn new(descriptor: &VertexDescriptor) -> (r: Self)
        requires
            descriptor.length_spec() >= 1,
        ensures
            r.wf(),
            r.length_of() == descriptor.length_spec(),
            r.vert_data_spec() == Seq::<D>::empty(),
            r.face_indices_spec() == Seq::<usize>::empty(),
            r.face_arities_spec() == Seq::<usize>::empty(),
    {
        Mesh {
            vert_data: Vec::new(),
            vert_descriptor: *descriptor,
            face_indices: Vec::new(),
            face_arities: Vec::new(),
        }
    }

    /// Appends one vertex record to the buffer.
    pub fn push_vertex(&mut self, vals: &Vec<D>)
        requires
            old(self).wf(),
            vals@.len() == old(self).length_of(),
        ensures
            final(self).wf(),
            final(self).length_of() == old(self).length_of(),
            final(self).vert_data_spec() == old(self).vert_data_spec() + vals@,
            final(self).face_indices_spec() == old(self).face_indices_spec(),
            final(self).face_arities_spec() == old(self).face_arities_spec(),
    {
        let mut j: usize = 0;
        while j < vals.len()
            invariant
                j <= vals@.len(),
                self.vert_data@ == old(self).vert_data@ + vals@.subrange(0, j as int),
                self.vert_descriptor == old(self).vert_descriptor,
                self.face_indices@ == old(self).face_indices@,
                self.face_arities@ == old(self).face_arities@,
            decreases vals@.len() - j,
        {
            self.vert_data.push(vals[j]);
            proof {
                assert(self.vert_data@ =~= old(self).vert_data@ + vals@.subrange(
                    0,
                    j + 1,
                ));
            }
            j = j + 1;
        }
        proof {
            assert(vals@.subrange(0, vals@.len() as int) =~= vals@);
            assert forall|j: int|
                0 <= j < self.face_indices_spec().len() implies self.index_ok(
                #[trigger] self.face_indices_spec()[j] as int,
            ) by {
                assert(self.face_indices_spec()[j] == old(self).face_indices_spec()[j]);
                assert(old(self).index_ok(old(self).face_indices_spec()[j] as int));
            };
        }
    }

    /// The vertex record starting at corner offset `index`.
    pub fn vertex(&self, index: usize) -> (r: Vec<D>)
        requires
            self.wf(),
            self.index_ok(index as int),
        ensures
            r@ == self.window(index as int),
    {
        let len = self.vert_descriptor.length;
        let n = self.vert_data.len();
        let mut out: Vec<D> = Vec::new();
        let mut j: usize = 0;
        while j < len
            invariant
                j <= len,
                len == self.length_of(),
                n == self.vert_data@.len(),
                self.index_ok(index as int),
                out@ == self.vert_data@.subrange(index as int, index as int + j as int),
            decreases len - j,
        {
            out.push(self.vert_data[index + j]);
            proof {
                assert(out@ =~= self.vert_data@.subrange(
                    index as int,
                    index as int + j + 1,
                ));
            }
            j = j + 1;
        }
        out
    }

    /// Overwrites the vertex record starting at corner offset `index`.
    pub fn vertex_mut(&mut self, index: usize, vals: &Vec<D>)
        requires
            old(self).wf(),
            old(self).index_ok(index as int),
            vals@.len() == old(self).length_of(),
        ensures
            final(self).wf(),
            final(self).length_of() == old(self).length_of(),
            final(self).vert_data_spec().len() == old(self).vert_data_spec().len(),
            final(self).face_indices_spec() == old(self).face_indices_spec(),
            final(self).face_arities_spec() == old(self).face_arities_spec(),
            forall|j: int|
                0 <= j < final(self).vert_data_spec().len()
                    ==> #[trigger] final(self).vert_data_spec()[j] == (if index <= j < index + old(
                    self,
                ).length_of() {
                    vals@[j - index]
                } else {
                    old(self).vert_data_spec()[j]
                }),
    {
        let len = self.vert_descriptor.length;
        let n = self.vert_data.len();
        let mut j: usize = 0;
        while j < len
            invariant
                j <= len,
                len == old(self).length_of(),
                n == old(self).vert_data@.len(),
                old(self).index_ok(index as int),
                vals@.len() == len,
                self.vert_descriptor == old(self).vert_descriptor,
                self.face_indices@ == old(self).face_indices@,
                self.face_arities@ == old(self).face_arities@,
                self.vert_data@.len() == old(self).vert_data@.len(),
                forall|l: int|
                    0 <= l < self.vert_data@.len() ==> self.vert_data@[l] == (if index <= l
                        < index + j {
                        vals@[l - index]
                    } else {
                        old(self).vert_data@[l]
                    }),
            decreases len - j,
        {
            let v = vals[j];
            self.vert_data.set(index + j, v);
            j = j + 1;
        }
        proof {
            assert forall|j: int|
                0 <= j < self.face_indices_spec().len() implies self.index_ok(
                #[trigger] self.face_indices_spec()[j] as int,
            ) by {
                assert(self.face_indices_spec()[j] == old(self).face_indices_spec()[j]);
                assert(old(self).index_ok(old(self).face_indices_spec()[j] as int));
            };
        }
    }

    /// All complete vertex records, in buffer order. A trailing partial
    /// record is not a vertex and is left out.
    pub fn vertices(&self) -> (r: Vec<Vec<D>>)
        requires
            self.wf(),
        ensures
            r@.len() == self.vert_data_spec().len() as int / self.length_of(),
            forall|i: int|
                0 <= i < r@.len() ==> (#[trigger] r@[i])@ == self.window(
                    i * self.length_of(),
                ),
    {
        let len = self.vert_descriptor.length;
        let n = self.vert_data.len();
        let count = n / len;
        let mut out: Vec<Vec<D>> = Vec::new();
        let mut i: usize = 0;
        while i < count
            invariant
                i <= count,
                len == self.length_of(),
                n == self.vert_data@.len(),
                self.wf(),
                count == self.vert_data_spec().len() as int / self.length_of(),
                out@.len() == i,
                forall|l: int|
                    0 <= l < i as int ==> (#[trigger] out@[l])@ == self.window(
                        l * self.length_of(),
                    ),
            decreases count - i,
        {
            proof {
                assert((i + 1) * len as int <= count * len as int <= self.vert_data@.len())
                    by (nonlinear_arith)
                    requires
                        0 <= i as int + 1 <= count,
                        len >= 1,
                        count == self.vert_data@.len() as int / len as int,
                ;
                assert(i * len == i as int * len as int && i as int * len as int + len as int == (
                i as int + 1) * (len as int)) by (nonlinear_arith)
                    requires
                        0 <= i,
                        0 <= len,
                ;
            }
            let v = self.vertex(i * len);
            out.push(v);
            i = i + 1;
        }
        out
    }

    /// Overwrites every complete vertex record at once, in buffer order.
    pub fn vertices_mut(&mut self, data: &Vec<Vec<D>>)
        requires
            old(self).wf(),
            data@.len() == old(self).vert_data_spec().len() as int / old(self).length_of(),
            forall|i: int|
                0 <= i < data@.len() ==> (#[trigger] data@[i])@.len() == old(
                    self,
                ).length_of(),
        ensures
            final(self).wf(),
            final(self).length_of() == old(self).length_of(),
            final(self).vert_data_spec().len() == old(self).vert_data_spec().len(),
            final(self).face_indices_spec() == old(self).face_indices_spec(),
            final(self).face_arities_spec() == old(self).face_arities_spec(),
            forall|i: int|
                0 <= i < data@.len() ==> final(self).window(i * final(self).length_of())
                    == (#[trigger] data@[i])@,
    {
        let len = self.vert_descriptor.length;
        let n = self.vert_data.len();
        let count = n / len;
        let mut i: usize = 0;
        while i < count
            invariant
                i <= count,
                len == old(self).length_of(),
                n == old(self).vert_data@.len(),
                n == self.vert_data@.len(),
                old(self).wf(),
                count == old(self).vert_data_spec().len() as int / len as int,
                data@.len() == count,
                forall|l: int|
                    0 <= l < data@.len() ==> (#[trigger] data@[l])@.len() == len,
                self.wf(),
                self.length_of() == len,
                self.vert_descriptor == old(self).vert_descriptor,
                self.face_indices@ == old(self).face_indices@,
                self.face_arities@ == old(self).face_arities@,
                self.vert_data@.len() == old(self).vert_data@.len(),
                forall|l: int, j: int|
                    0 <= l < i as int && 0 <= j < len ==> #[trigger] self.vert_data@[l * len + j]
                        == data@[l]@[j],
                forall|p: int|
                    i as int * len <= p < self.vert_data@.len() ==> #[trigger] self.vert_data@[p]
                        == old(self).vert_data@[p],
            decreases count - i,
        {
            proof {
                assert((i + 1) * len as int <= count * len as int <= self.vert_data@.len())
                    by (nonlinear_arith)
                    requires
                        0 <= i as int + 1 <= count,
                        len >= 1,
                        count == self.vert_data@.len() as int / len as int,
                ;
                assert(i * len == i as int * len as int && i as int * len + len == (i as int + 1)
                    * len) by (nonlinear_arith)
                    requires
                        0 <= i,
                        0 <= len,
                ;
            }
            let ghost pre = self.vert_data@;
            let row = &data[i];
            self.vertex_mut(i * len, row);
            proof {
                assert forall|l: int, j: int|
                    0 <= l < i as int + 1 && 0 <= j < len implies #[trigger] self.vert_data@[l
                    * len + j] == data@[l]@[j] by {
                    assert(l * len + j < (i as int + 1) * len) by (nonlinear_arith)
                        requires
                            0 <= l <= i as int,
                            0 <= j < len,
                    ;
                    assert(l * len >= 0) by (nonlinear_arith)
                        requires
                            0 <= l,
                            0 <= len,
                    ;
                    if l < i as int {
                        assert(l * len + j < i as int * len) by (nonlinear_arith)
                            requires
                                0 <= l < i as int,
                                0 <= j < len,
                        ;
                        assert(pre[l * len + j] == data@[l]@[j]);
                    }
                };
            }
            i = i + 1;
        }
        proof {
            assert forall|l: int|
                0 <= l < data@.len() implies self.window(l * len) == (
            #[trigger] data@[l])@ by {
                assert((l + 1) * len <= count * len <= self.vert_data@.len())
                    by (nonlinear_arith)
                    requires
                        0 <= l + 1 <= count,
                        len >= 1,
                        count == self.vert_data@.len() as int / len as int,
                ;
                assert(l * len + len == (l + 1) * len && l * len >= 0) by (nonlinear_arith)
                    requires
                        0 <= l,
                        0 <= len,
                ;
                assert forall|j: int| 0 <= j < len implies self.window(l * len)[j] == data@[l]@[j] by {
                    assert(self.vert_data@[l * len + j] == data@[l]@[j]);
                };
                assert(self.window(l * len) =~= data@[l]@);
            };
        }
    }

    /// Appends one face, given as corner offsets into the vertex buffer.
    /// Faces must be appended through the arity table from the start: a mesh
    /// holding a flat triangle run accepts no polygonal faces.
    pub fn push_face(&mut self, indices: &Vec<usize>)
        requires
            old(self).wf(),
            forall|j: int|
                0 <= j < indices@.len() ==> old(self).index_ok(
                    (#[trigger] indices@[j]) as int,
                ),
            old(self).face_arities_spec().len() > 0 || old(self).face_indices_spec().len()
                == 0,
        ensures
            final(self).wf(),
            final(self).length_of() == old(self).length_of(),
            final(self).vert_data_spec() == old(self).vert_data_spec(),
            final(self).face_indices_spec() == old(self).face_indices_spec() + indices@,
            final(self).face_arities_spec() == old(self).face_arities_spec().push(
                indices@.len() as usize,
            ),
    {
        let mut j: usize = 0;
        while j < indices.len()
            invariant
                j <= indices@.len(),
                self.vert_data@ == old(self).vert_data@,
                self.vert_descriptor == old(self).vert_descriptor,
                self.face_arities@ == old(self).face_arities@,
                self.face_indices@ == old(self).face_indices@ + indices@.subrange(0, j as int),
            decreases indices@.len() - j,
        {
            self.face_indices.push(indices[j]);
            proof {
                assert(self.face_indices@ =~= old(self).face_indices@ + indices@.subrange(
                    0,
                    j + 1,
                ));
            }
            j = j + 1;
        }
        self.face_arities.push(indices.len());
        proof {
            assert(indices@.subrange(0, indices@.len() as int) =~= indices@);
            assert(self.face_arities@.drop_last() =~= old(self).face_arities@);
            if old(self).face_arities@.len() == 0 {
                assert(arity_sum(old(self).face_arities@) == 0);
            }
        }
    }

    /// Appends one triangle to the flat corner run (the storage mode
    /// without an arity table). A mesh that already holds polygonal faces
    /// accepts no flat triangles.
    pub fn push_triangle(&mut self, a: usize, b: usize, c: usize)
        requires
            old(self).wf(),
            old(self).index_ok(a as int),
            old(self).index_ok(b as int),
            old(self).index_ok(c as int),
            old(self).face_arities_spec().len() == 0,
        ensures
            final(self).wf(),
            final(self).length_of() == old(self).length_of(),
            final(self).vert_data_spec() == old(self).vert_data_spec(),
            final(self).face_indices_spec() == old(self).face_indices_spec() + seq![a, b, c],
            final(self).face_arities_spec() == old(self).face_arities_spec(),
    {
        self.face_indices.push(a);
        self.face_indices.push(b);
        self.face_indices.push(c);
        proof {
            assert(self.face_indices@ =~= old(self).face_indices@ + seq![a, b, c]);
            assert forall|j: int|
                0 <= j < self.face_indices_spec().len() implies self.index_ok(
                #[trigger] self.face_indices_spec()[j] as int,
            ) by {
                if j < old(self).face_indices_spec().len() {
                    assert(self.face_indices_spec()[j] == old(self).face_indices_spec()[j]);
                    assert(old(self).index_ok(old(self).face_indices_spec()[j] as int));
                }
            };
        }
    }

    /// The faces as lists of corner offsets.
    pub fn face_indices(&self) -> (r: Vec<Vec<usize>>)
        requires
            self.wf(),
        ensures
            r@.len() == self.faces_spec().len(),
            forall|i: int| 0 <= i < r@.len() ==> (#[trigger] r@[i])@ == self.faces_spec()[i],
    {
        let mut out: Vec<Vec<usize>> = Vec::new();
        if self.face_arities.len() == 0 {
            let n = self.face_indices.len();
            let count = n / 3;
            let mut i: usize = 0;
            while i < count
                invariant
                    i <= count,
                    self.wf(),
                    self.face_arities@.len() == 0,
                    n == self.face_indices@.len(),
                    count == self.face_indices@.len() as int / 3,
                    out@.len() == i,
                    forall|l: int|
                        0 <= l < i as int ==> (#[trigger] out@[l])@ == self.faces_spec()[l],
                decreases count - i,
            {
                proof {
                    assert(3 * (i as int + 1) <= 3 * count <= n);
                }
                let mut face: Vec<usize> = Vec::new();
                face.push(self.face_indices[3 * i]);
                face.push(self.face_indices[3 * i + 1]);
                face.push(self.face_indices[3 * i + 2]);
                proof {
                    assert(face@ =~= self.face_indices@.subrange(
                        3 * i as int,
                        3 * i as int + 3,
                    ));
                }
                out.push(face);
                i = i + 1;
            }
        } else {
            let n = self.face_indices.len();
            let count = self.face_arities.len();
            let mut i: usize = 0;
            let mut start: usize = 0;
            while i < count
                invariant
                    i <= count,
                    self.wf(),
                    n == self.face_indices@.len(),
                    self.face_arities@.len() == count,
                    count > 0,
                    start as int == face_start(self.face_arities@, i as int),
                    out@.len() == i,
                    forall|l: int|
                        0 <= l < i as int ==> (#[trigger] out@[l])@ == self.faces_spec()[l],
                decreases count - i,
            {
                proof {
                    lemma_face_start_bounds(self.face_arities@, i as int);
                    lemma_face_start_step(self.face_arities@, i as int);
                }
                let arity = self.face_arities[i];
                let mut face: Vec<usize> = Vec::new();
                let mut j: usize = 0;
                while j < arity
                    invariant
                        j <= arity,
                        self.wf(),
                        n == self.face_indices@.len(),
                        i < self.face_arities@.len(),
                        arity == self.face_arities@[i as int],
                        start as int == face_start(self.face_arities@, i as int),
                        start + arity <= self.face_indices@.len(),
                        face@ == self.face_indices@.subrange(
                            start as int,
                            start as int + j as int,
                        ),
                    decreases arity - j,
                {
                    face.push(self.face_indices[start + j]);
                    proof {
                        assert(face@ =~= self.face_indices@.subrange(
                            start as int,
                            start as int + j + 1,
                        ));
                    }
                    j = j + 1;
                }
                out.push(face);
                start = start + arity;
                i = i + 1;
            }
        }
        out
    }
}

/// A face of a mesh, holding copies of its corner vertex records.
pub struct Polygon<D> {
    verts: Vec<Vec<D>>,
}

impl<D: Copy> Polygon<D> {
    /// The corner vertex records, in face order.
    pub closed spec fn verts_spec(self) -> Seq<Vec<D>> {
        self.verts@
    }

    /// All corner vertex records of this face.
    pub fn vertices(&self) -> (r: &Vec<Vec<D>>)
        ensures
            r@ == self.verts_spec(),
    {
        &self.verts
    }

    /// The corner vertex record at position `index` within this face.
    pub fn vertex(&self, index: usize) -> (r: &Vec<D>)
        requires
            index < self.verts_spec().len(),
        ensures
            *r == self.verts_spec()[index as int],
    {
        &self.verts[index]
    }
}

/// A triangle cut out of a face, holding copies of its three corner vertex
/// records.
pub struct Triangle<D> {
    pub a: Vec<D>,
    pub b: Vec<D>,
    pub c: Vec<D>,
}

/// The corner-offset triples of the fan triangulation of one face: corners
/// `(0, t + 1, t + 2)` for each `t`. Faces of fewer than three corners
/// yield nothing.
pub open spec fn fan(face: Seq<usize>) -> Seq<(usize, usize, usize)> {
    Seq::new(
        if face.len() >= 3 {
            (face.len() - 2) as nat
        } else {
            0nat
        },
        |t: int| (face[0], face[t + 1], face[t + 2]),
    )
}

/// The fan triangulations of a list of faces, concatenated in face order.
pub open spec fn mesh_fan(faces: Seq<Seq<usize>>) -> Seq<(usize, usize, usize)>
    decreases faces.len(),
{
    if faces.len() == 0 {
        Seq::empty()
    } else {
        mesh_fan(faces.drop_last()) + fan(faces.last())
    }
}

impl<D: Copy> Mesh<D> {
    /// The faces as polygons carrying their corner vertex records.
    pub fn faces(&self) -> (r: Vec<Polygon<D>>)
        requires
            self.wf(),
        ensures
            r@.len() == self.faces_spec().len(),
            forall|i: int|
                0 <= i < r@.len() ==> {
                    let vs = (#[trigger] r@[i]).verts_spec();
                    &&& vs.len() == self.faces_spec()[i].len()
                    &&& forall|j: int|
                        0 <= j < vs.len() ==> (#[trigger] vs[j])@ == self.window(
                            self.faces_spec()[i][j] as int,
                        )
                },
    {
        let fs = self.face_indices();
        let mut out: Vec<Polygon<D>> = Vec::new();
        let mut i: usize = 0;
        while i < fs.len()
            invariant
                i <= fs@.len(),
                self.wf(),
                fs@.len() == self.faces_spec().len(),
                forall|l: int|
                    0 <= l < fs@.len() ==> (#[trigger] fs@[l])@ == self.faces_spec()[l],
                out@.len() == i,
                forall|l: int|
                    0 <= l < i as int ==> {
                        let vs = (#[trigger] out@[l]).verts_spec();
                        &&& vs.len() == self.faces_spec()[l].len()
                        &&& forall|j: int|
                            0 <= j < vs.len() ==> (#[trigger] vs[j])@ == self.window(
                                self.faces_spec()[l][j] as int,
                            )
                    },
            decreases fs@.len() - i,
        {
            let face = &fs[i];
            proof {
                assert forall|l: int|
                    0 <= l < face@.len() implies self.index_ok((#[trigger] face@[l]) as int) by {
                    lemma_faces_spec_indices(*self, i as int, l);
                };
            }
            let mut verts: Vec<Vec<D>> = Vec::new();
            let mut j: usize = 0;
            while j < face.len()
                invariant
                    j <= face@.len(),
                    self.wf(),
                    i < fs@.len(),
                    fs@.len() == self.faces_spec().len(),
                    face@ == self.faces_spec()[i as int],
                    forall|l: int|
                        0 <= l < face@.len() ==> self.index_ok((#[trigger] face@[l]) as int),
                    verts@.len() == j,
                    forall|l: int|
                        0 <= l < j as int ==> (#[trigger] verts@[l])@ == self.window(
                            face@[l] as int,
                        ),
                decreases face@.len() - j,
            {
                let v = self.vertex(face[j]);
                verts.push(v);
                j = j + 1;
            }
            out.push(Polygon { verts });
            i = i + 1;
        }
        out
    }

    /// The faces triangulated as fans, each triangle carrying copies of its
    /// three corner vertex records.
    pub fn triangles(&self) -> (r: Vec<Triangle<D>>)
        requires
            self.wf(),
        ensures
            r@.len() == mesh_fan(self.faces_spec()).len(),
            forall|t: int|
                0 <= t < r@.len() ==> {
                    let tri = mesh_fan(self.faces_spec())[t];
                    &&& (#[trigger] r@[t]).a@ == self.window(tri.0 as int)
                    &&& r@[t].b@ == self.window(tri.1 as int)
                    &&& r@[t].c@ == self.window(tri.2 as int)
                },
    {
        let fs = self.face_indices();
        let mut out: Vec<Triangle<D>> = Vec::new();
        let mut i: usize = 0;
        proof {
            assert(self.faces_spec().subrange(0, 0) =~= Seq::<Seq<usize>>::empty());
        }
        while i < fs.len()
            invariant
                i <= fs@.len(),
                self.wf(),
                fs@.len() == self.faces_spec().len(),
                forall|l: int|
                    0 <= l < fs@.len() ==> (#[trigger] fs@[l])@ == self.faces_spec()[l],
                out@.len() == mesh_fan(self.faces_spec().subrange(0, i as int)).len(),
                forall|t: int|
                    0 <= t < out@.len() ==> {
                        let tri = mesh_fan(self.faces_spec().subrange(0, i as int))[t];
                        &&& (#[trigger] out@[t]).a@ == self.window(tri.0 as int)
                        &&& out@[t].b@ == self.window(tri.1 as int)
                        &&& out@[t].c@ == self.window(tri.2 as int)
                    },
            decreases fs@.len() - i,
        {
            let face = &fs[i];
            let ghost prefix = self.faces_spec().subrange(0, i as int);
            let ghost prefix2 = self.faces_spec().subrange(0, i as int + 1);
            proof {
                assert(prefix2.drop_last() =~= prefix);
                assert(prefix2.last() == self.faces_spec()[i as int]);
                assert(mesh_fan(prefix2) == mesh_fan(prefix) + fan(self.faces_spec()[i as int]));
                assert forall|l: int|
                    0 <= l < face@.len() implies self.index_ok((#[trigger] face@[l]) as int) by {
                    lemma_faces_spec_indices(*self, i as int, l);
                };
            }
            if face.len() >= 3 {
                let mut t: usize = 0;
                while t < face.len() - 2
                    invariant
                        t <= face@.len() - 2,
                        self.wf(),
                        i < fs@.len(),
                        fs@.len() == self.faces_spec().len(),
                        face@ == self.faces_spec()[i as int],
                        face@.len() >= 3,
                        forall|l: int|
                            0 <= l < face@.len() ==> self.index_ok((#[trigger] face@[l]) as int),
                        prefix == self.faces_spec().subrange(0, i as int),
                        out@.len() == mesh_fan(prefix).len() + t,
                        forall|u: int|
                            0 <= u < mesh_fan(prefix).len() ==> {
                                let tri = mesh_fan(prefix)[u];
                                &&& (#[trigger] out@[u]).a@ == self.window(tri.0 as int)
                                &&& out@[u].b@ == self.window(tri.1 as int)
                                &&& out@[u].c@ == self.window(tri.2 as int)
                            },
                        forall|u: int|
                            mesh_fan(prefix).len() <= u < out@.len() ==> {
                                let tri = fan(face@)[u - mesh_fan(prefix).len()];
                                &&& (#[trigger] out@[u]).a@ == self.window(tri.0 as int)
                                &&& out@[u].b@ == self.window(tri.1 as int)
                                &&& out@[u].c@ == self.window(tri.2 as int)
                            },
                    decreases face@.len() - 2 - t,
                {
                    let tri = Triangle {
                        a: self.vertex(face[0]),
                        b: self.vertex(face[t + 1]),
                        c: self.vertex(face[t + 2]),
                    };
                    out.push(tri);
                    t = t + 1;
                }
            }
            proof {
                assert forall|u: int|
                    0 <= u < out@.len() implies {
                    let tri = mesh_fan(prefix2)[u];
                    &&& (#[trigger] out@[u]).a@ == self.window(tri.0 as int)
                    &&& out@[u].b@ == self.window(tri.1 as int)
                    &&& out@[u].c@ == self.window(tri.2 as int)
                } by {
                    if u < mesh_fan(prefix).len() {
                        assert(mesh_fan(prefix2)[u] == mesh_fan(prefix)[u]);
                    } else {
                        assert(mesh_fan(prefix2)[u] == fan(face@)[u - mesh_fan(prefix).len()]);
                    }
                };
            }
            i = i + 1;
        }
        proof {
            assert(self.faces_spec().subrange(0, self.faces_spec().len() as int)
                =~= self.faces_spec());
        }
        out
    }
}

/// Every corner offset a face slice holds is one of the mesh's stored
/// offsets, hence usable.
proof fn lemma_faces_spec_indices<D: Copy>(m: Mesh<D>, i: int, l: int)
    requires
        m.wf(),
        0 <= i < m.faces_spec().len(),
        0 <= l < m.faces_spec()[i].len(),
    ensures
        m.index_ok(m.faces_spec()[i][l] as int),
{
    if m.face_arities_spec().len() == 0 {
        assert(m.faces_spec()[i][l] == m.face_indices_spec()[3 * i + l]);
    } else {
        lemma_face_start_bounds(m.face_arities_spec(), i);
        assert(m.faces_spec()[i][l] == m.face_indices_spec()[face_start(
            m.face_arities_spec(),
            i,
        ) + l]);
    }
}

} // verus!
