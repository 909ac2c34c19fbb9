//! Symplectic tableau for Clifford circuits.
//!
//! Tracks Clifford operations on n qubits without materialising a statevector. Each row
//! holds the X part, the Z part and the sign of a Pauli string, in the (x|z|r) layout of
//! Aaronson and Gottesman (arxiv:quant-ph/0406196).

use vstd::prelude::*;

use crate::pauli;
use crate::pauli::PauliRow;

verus! {

/// Symplectic tableau of a Clifford operation R on n qubits.
///
/// Stores 2n rows of 2n+1 bits. Row i for i in 0..n is the destabilizer R X_i R†, row n+i
/// is the stabilizer R Z_i R†. The last column is the sign (0 = +1, 1 = -1).
pub struct CliffordTableau {
    n: usize,
    table: Vec<Vec<u8>>,
}

/// The Pauli string held by a row of cells.
spec fn row_of(cells: Seq<u8>, n: nat) -> PauliRow {
    PauliRow {
        x: Seq::new(n, |j: int| cells[j] != 0),
        z: Seq::new(n, |j: int| cells[n + j] != 0),
        r: cells[2 * (n as int)] != 0,
    }
}

spec fn row_wf(cells: Seq<u8>, n: nat) -> bool {
    &&& cells.len() == 2 * n + 1
    &&& forall|c: int| 0 <= c < cells.len() ==> #[trigger] cells[c] <= 1
}

/// The rows of the tableau of the identity.
pub open spec fn identity_rows(n: nat) -> Seq<PauliRow> {
    Seq::new(
        2 * n,
        |k: int|
            if k < n {
                pauli::x_generator(n, k)
            } else {
                pauli::z_generator(n, k - n)
            },
    )
}

/// The bits that a byte string stands for: any nonzero byte is a set bit.
pub open spec fn bits_of(bytes: Seq<u8>) -> Seq<bool> {
    Seq::new(bytes.len(), |j: int| bytes[j] != 0)
}

/// The bytes 0 and 1 that a bit string is written with.
pub open spec fn bytes_of(bits: Seq<bool>) -> Seq<u8> {
    Seq::new(
        bits.len(),
        |j: int|
            if bits[j] {
                1u8
            } else {
                0u8
            },
    )
}

/// The product, from left to right, of those of the first `k` rows that `pick` selects.
pub open spec fn picked_product(rows: Seq<PauliRow>, pick: Seq<bool>, n: nat, k: nat) -> PauliRow
    decreases k,
{
    if k == 0 {
        pauli::identity_row(n)
    } else {
        let p = picked_product(rows, pick, n, (k - 1) as nat);
        if pick[k - 1] {
            pauli::row_mul(p, rows[k - 1])
        } else {
            p
        }
    }
}

/// The image of the Pauli with X part `x` and Z part `z` under the Clifford with these rows:
/// the destabilizers that `x` selects times the stabilizers that `z` selects.
pub open spec fn image(rows: Seq<PauliRow>, n: nat, x: Seq<bool>, z: Seq<bool>) -> PauliRow {
    picked_product(rows, x + z, n, 2 * n)
}

/// The number of letters Y in those of the first `k` rows that `pick` selects.
pub open spec fn y_letters(rows: Seq<PauliRow>, pick: Seq<bool>, k: nat) -> nat
    decreases k,
{
    if k == 0 {
        0
    } else {
        y_letters(rows, pick, (k - 1) as nat) + if pick[k - 1] {
            pauli::common(rows[k - 1].x, rows[k - 1].z)
        } else {
            0
        }
    }
}

/// The letters Y that go into the image of a row, less those that come out of it. Each one is
/// a factor i between the letter Y and the product X·Z.
pub open spec fn letter_defect(rows: Seq<PauliRow>, n: nat, p: PauliRow) -> int {
    let q = image(rows, n, p.x, p.z);
    pauli::common(p.x, p.z) + y_letters(rows, p.x + p.z, 2 * n) - pauli::common(q.x, q.z)
}

/// The image of a signed row: the image of its letters, with its own sign carried over and
/// the factors i of the letters Y accounted for.
pub open spec fn row_image(rows: Seq<PauliRow>, n: nat, p: PauliRow) -> PauliRow {
    let q = image(rows, n, p.x, p.z);
    PauliRow { r: (q.r != p.r) != (letter_defect(rows, n, p) % 4 == 2), ..q }
}

impl View for CliffordTableau {
    type V = Seq<PauliRow>;

    closed spec fn view(&self) -> Seq<PauliRow> {
        Seq::new(self.table@.len(), |k: int| row_of(self.table@[k]@, self.n as nat))
    }
}

/// Conjunction and exclusive or of single bits held in bytes.
proof fn lemma_bit_ops(a: u8, b: u8)
    requires
        a <= 1,
        b <= 1,
    ensures
        a & b <= 1,
        a ^ b <= 1,
        (a & b != 0) == (a != 0 && b != 0),
        (a ^ b != 0) == ((a != 0) != (b != 0)),
{
    assert(a & b <= 1 && a ^ b <= 1 && (a & b != 0) == (a != 0 && b != 0) && (a ^ b != 0) == ((a
        != 0) != (b != 0))) by (bit_vector)
        requires
            a <= 1,
            b <= 1,
    ;
}

/// The Pauli string held by scratch buffers.
spec fn scratch_row(sx: Seq<u8>, sz: Seq<u8>, sr: u8) -> PauliRow {
    PauliRow { x: bits_of(sx), z: bits_of(sz), r: sr != 0 }
}

spec fn scratch_wf(sx: Seq<u8>, sz: Seq<u8>, sr: u8) -> bool {
    &&& forall|c: int| 0 <= c < sx.len() ==> #[trigger] sx[c] <= 1
    &&& forall|c: int| 0 <= c < sz.len() ==> #[trigger] sz[c] <= 1
    &&& sr <= 1
}

/// Overwriting one cell of a row changes one bit of its Pauli string.
proof fn lemma_cell_update(cells: Seq<u8>, n: nat, c: int, v: u8)
    requires
        row_wf(cells, n),
        0 <= c < cells.len(),
        v <= 1,
    ensures
        row_wf(cells.update(c, v), n),
        c < n ==> row_of(cells.update(c, v), n) == (PauliRow {
            x: row_of(cells, n).x.update(c, v != 0),
            ..row_of(cells, n)
        }),
        n <= c < 2 * n ==> row_of(cells.update(c, v), n) == (PauliRow {
            z: row_of(cells, n).z.update(c - n, v != 0),
            ..row_of(cells, n)
        }),
        c == 2 * n ==> row_of(cells.update(c, v), n) == (PauliRow {
            r: v != 0,
            ..row_of(cells, n)
        }),
{
    let p = row_of(cells, n);
    let q = row_of(cells.update(c, v), n);
    if c < n {
        assert(q.x =~= p.x.update(c, v != 0));
        assert(q.z =~= p.z);
    } else if c < 2 * n {
        assert(q.x =~= p.x);
        assert(q.z =~= p.z.update(c - n, v != 0));
    } else {
        assert(q.x =~= p.x);
        assert(q.z =~= p.z);
    }
}

impl CliffordTableau {
    /// The number of qubits.
    pub closed spec fn qubits(&self) -> nat {
        self.n as nat
    }

    /// The shape of the table: 2n rows of 2n+1 cells, each cell 0 or 1.
    pub closed spec fn wf(&self) -> bool {
        &&& 2 * self.n + 1 <= usize::MAX
        &&& self.table@.len() == 2 * self.n
        &&& forall|k: int|
            0 <= k < self.table@.len() ==> row_wf(#[trigger] self.table@[k]@, self.n as nat)
    }

    /// What well-formedness says of the view.
    pub proof fn lemma_view_shape(&self)
        requires
            self.wf(),
        ensures
            self@.len() == 2 * self.qubits(),
            forall|k: int| 0 <= k < self@.len() ==> (#[trigger] self@[k]).on(self.qubits()),
    {
    }

    fn get_x(&self, row: usize, col: usize) -> (v: u8)
        requires
            self.wf(),
            row < self@.len(),
            col < self.qubits(),
        ensures
            v <= 1,
            (v != 0) == self@[row as int].x[col as int],
    {
        self.table[row][col]
    }

    fn set_x(&mut self, row: usize, col: usize, v: u8)
        requires
            old(self).wf(),
            row < old(self)@.len(),
            col < old(self).qubits(),
            v <= 1,
        ensures
            final(self).wf(),
            final(self).qubits() == old(self).qubits(),
            final(self)@ == old(self)@.update(
                row as int,
                (PauliRow {
                    x: old(self)@[row as int].x.update(col as int, v != 0),
                    ..old(self)@[row as int]
                }),
            ),
    {
        self.table[row][col] = v;
        proof {
            lemma_cell_update(old(self).table@[row as int]@, self.n as nat, col as int, v);
            assert(self@ =~= old(self)@.update(row as int, self@[row as int]));
        }
    }

    fn get_z(&self, row: usize, col: usize) -> (v: u8)
        requires
            self.wf(),
            row < self@.len(),
            col < self.qubits(),
        ensures
            v <= 1,
            (v != 0) == self@[row as int].z[col as int],
    {
        self.table[row][col + self.n]
    }

    fn set_z(&mut self, row: usize, col: usize, v: u8)
        requires
            old(self).wf(),
            row < old(self)@.len(),
            col < old(self).qubits(),
            v <= 1,
        ensures
            final(self).wf(),
            final(self).qubits() == old(self).qubits(),
            final(self)@ == old(self)@.update(
                row as int,
                (PauliRow {
                    z: old(self)@[row as int].z.update(col as int, v != 0),
                    ..old(self)@[row as int]
                }),
            ),
    {
        let c: usize = col + self.n;
        self.table[row][c] = v;
        proof {
            lemma_cell_update(old(self).table@[row as int]@, self.n as nat, c as int, v);
            assert(self@ =~= old(self)@.update(row as int, self@[row as int]));
        }
    }

    fn get_r(&self, row: usize) -> (v: u8)
        requires
            self.wf(),
            row < self@.len(),
        ensures
            v <= 1,
            (v != 0) == self@[row as int].r,
    {
        self.table[row][2 * self.n]
    }

    fn set_r(&mut self, row: usize, v: u8)
        requires
            old(self).wf(),
            row < old(self)@.len(),
            v <= 1,
        ensures
            final(self).wf(),
            final(self).qubits() == old(self).qubits(),
            final(self)@ == old(self)@.update(
                row as int,
                (PauliRow { r: v != 0, ..old(self)@[row as int] }),
            ),
    {
        let c: usize = 2 * self.n;
        self.table[row][c] = v;
        proof {
            lemma_cell_update(old(self).table@[row as int]@, self.n as nat, c as int, v);
            assert(self@ =~= old(self)@.update(row as int, self@[row as int]));
        }
    }

    /// Apply a Hadamard on qubit `i`, in time linear in n.
    pub fn h(&mut self, i: usize)
        requires
            old(self).wf(),
            i < old(self).qubits(),
        ensures
            final(self).wf(),
            final(self).qubits() == old(self).qubits(),
            final(self)@ == old(self)@.map_values(|p: PauliRow| pauli::row_h(p, i as int)),
    {
        let rows: usize = 2 * self.n;
        let ghost before = self@;
        for row in 0..rows
            invariant
                self.wf(),
                i < self.qubits(),
                rows == self@.len(),
                self.qubits() == old(self).qubits(),
                before == old(self)@,
                before.len() == rows,
                forall|k: int|
                    0 <= k < row ==> #[trigger] self@[k] == pauli::row_h(before[k], i as int),
                forall|k: int| row <= k < rows ==> #[trigger] self@[k] == before[k],
        {
            proof {
                self.lemma_view_shape();
            }
            let xi: u8 = self.get_x(row, i);
            let zi: u8 = self.get_z(row, i);
            let r: u8 = self.get_r(row);
            proof {
                lemma_bit_ops(xi, zi);
                lemma_bit_ops(r, xi & zi);
            }
            self.set_x(row, i, zi);
            self.set_z(row, i, xi);
            // Y changes sign.
            self.set_r(row, r ^ (xi & zi));
        }
        proof {
            assert(self@ =~= before.map_values(|p: PauliRow| pauli::row_h(p, i as int)));
        }
    }

    /// Apply the phase gate S on qubit `i`, in time linear in n.
    pub fn s(&mut self, i: usize)
        requires
            old(self).wf(),
            i < old(self).qubits(),
        ensures
            final(self).wf(),
            final(self).qubits() == old(self).qubits(),
            final(self)@ == old(self)@.map_values(|p: PauliRow| pauli::row_s(p, i as int)),
    {
        let rows: usize = 2 * self.n;
        let ghost before = self@;
        for row in 0..rows
            invariant
                self.wf(),
                i < self.qubits(),
                rows == self@.len(),
                self.qubits() == old(self).qubits(),
                before == old(self)@,
                before.len() == rows,
                forall|k: int|
                    0 <= k < row ==> #[trigger] self@[k] == pauli::row_s(before[k], i as int),
                forall|k: int| row <= k < rows ==> #[trigger] self@[k] == before[k],
        {
            proof {
                self.lemma_view_shape();
            }
            let xi: u8 = self.get_x(row, i);
            let zi: u8 = self.get_z(row, i);
            let r: u8 = self.get_r(row);
            proof {
                lemma_bit_ops(xi, zi);
                lemma_bit_ops(zi, xi);
                lemma_bit_ops(r, xi & zi);
            }
            // The sign depends on the Z bit before it changes.
            self.set_r(row, r ^ (xi & zi));
            self.set_z(row, i, zi ^ xi);
        }
        proof {
            assert(self@ =~= before.map_values(|p: PauliRow| pauli::row_s(p, i as int)));
        }
    }

    /// Apply a CNOT with control `i` and target `j`, in time linear in n.
    pub fn cnot(&mut self, i: usize, j: usize)
        requires
            old(self).wf(),
            i < old(self).qubits(),
            j < old(self).qubits(),
        ensures
            final(self).wf(),
            final(self).qubits() == old(self).qubits(),
            final(self)@ == old(self)@.map_values(
                |p: PauliRow| pauli::row_cnot(p, i as int, j as int),
            ),
    {
        let rows: usize = 2 * self.n;
        let ghost before = self@;
        for row in 0..rows
            invariant
                self.wf(),
                i < self.qubits(),
                j < self.qubits(),
                rows == self@.len(),
                self.qubits() == old(self).qubits(),
                before == old(self)@,
                before.len() == rows,
                forall|k: int|
                    0 <= k < row ==> #[trigger] self@[k] == pauli::row_cnot(
                        before[k],
                        i as int,
                        j as int,
                    ),
                forall|k: int| row <= k < rows ==> #[trigger] self@[k] == before[k],
        {
            proof {
                self.lemma_view_shape();
            }
            let xi: u8 = self.get_x(row, i);
            let xj: u8 = self.get_x(row, j);
            let zi: u8 = self.get_z(row, i);
            let zj: u8 = self.get_z(row, j);
            let r: u8 = self.get_r(row);
            proof {
                lemma_bit_ops(xi, zj);
                lemma_bit_ops(xj, zi);
                lemma_bit_ops(xj ^ zi, 1);
                lemma_bit_ops(xi & zj, xj ^ zi ^ 1);
                lemma_bit_ops(r, xi & zj & (xj ^ zi ^ 1));
                lemma_bit_ops(xj, xi);
                lemma_bit_ops(zi, zj);
            }
            self.set_r(row, r ^ (xi & zj & (xj ^ zi ^ 1)));
            self.set_x(row, j, xj ^ xi);
            self.set_z(row, i, zi ^ zj);
        }
        proof {
            assert(self@ =~= before.map_values(
                |p: PauliRow| pauli::row_cnot(p, i as int, j as int),
            ));
        }
    }

    /// Apply a Pauli X on qubit `i`, decomposed as H·S·S·H.
    pub fn x(&mut self, i: usize)
        requires
            old(self).wf(),
            i < old(self).qubits(),
        ensures
            final(self).wf(),
            final(self).qubits() == old(self).qubits(),
            final(self)@ == old(self)@.map_values(|p: PauliRow| pauli::row_x(p, i as int)),
    {
        self.h(i);
        self.s(i);
        self.s(i);
        self.h(i);
        proof {
            old(self).lemma_view_shape();
            assert forall|k: int| 0 <= k < old(self)@.len() implies self@[k]
                == #[trigger] pauli::row_x(old(self)@[k], i as int) by {
                pauli::lemma_x_from_h_and_s(old(self)@[k], i as int, old(self).qubits());
            }
            assert(self@ =~= old(self)@.map_values(|p: PauliRow| pauli::row_x(p, i as int)));
        }
    }

    /// Apply a Pauli Z on qubit `i`, decomposed as S·S.
    pub fn z(&mut self, i: usize)
        requires
            old(self).wf(),
            i < old(self).qubits(),
        ensures
            final(self).wf(),
            final(self).qubits() == old(self).qubits(),
            final(self)@ == old(self)@.map_values(|p: PauliRow| pauli::row_z(p, i as int)),
    {
        self.s(i);
        self.s(i);
        proof {
            old(self).lemma_view_shape();
            assert forall|k: int| 0 <= k < old(self)@.len() implies self@[k]
                == #[trigger] pauli::row_z(old(self)@[k], i as int) by {
                pauli::lemma_z_from_s(old(self)@[k], i as int, old(self).qubits());
            }
            assert(self@ =~= old(self)@.map_values(|p: PauliRow| pauli::row_z(p, i as int)));
        }
    }

    /// Apply a Pauli Y on qubit `i`, as Z and then X. The global phase of Y = i·X·Z has no
    /// effect on conjugation.
    pub fn y(&mut self, i: usize)
        requires
            old(self).wf(),
            i < old(self).qubits(),
        ensures
            final(self).wf(),
            final(self).qubits() == old(self).qubits(),
            final(self)@ == old(self)@.map_values(|p: PauliRow| pauli::row_y(p, i as int)),
    {
        self.z(i);
        self.x(i);
        proof {
            assert(self@ =~= old(self)@.map_values(|p: PauliRow| pauli::row_y(p, i as int)));
        }
    }

    /// Initialize to the identity circuit: destabilizers X_i and stabilizers Z_i, all with
    /// positive sign.
    pub fn new(n: usize) -> (t: Self)
        requires
            2 * n + 1 <= usize::MAX,
        ensures
            t.wf(),
            t.qubits() == n,
            t@ == identity_rows(n as nat),
    {
        let num_rows: usize = 2 * n;
        let num_cols: usize = 2 * n + 1;
        let mut table: Vec<Vec<u8>> = Vec::new();
        for k in 0..num_rows
            invariant
                num_rows == 2 * n,
                num_cols == 2 * n + 1,
                table@.len() == k,
                forall|a: int|
                    0 <= a < k ==> {
                        &&& (#[trigger] table@[a])@.len() == num_cols
                        &&& forall|c: int|
                            0 <= c < num_cols ==> #[trigger] table@[a]@[c] == (if c == a {
                                1u8
                            } else {
                                0u8
                            })
                    },
        {
            // The set cell of row k stands in column k for both halves of the table.
            let mut cells: Vec<u8> = Vec::new();
            for c in 0..num_cols
                invariant
                    cells@.len() == c,
                    forall|d: int|
                        0 <= d < c ==> #[trigger] cells@[d] == (if d == k {
                            1u8
                        } else {
                            0u8
                        }),
            {
                if c == k {
                    cells.push(1);
                } else {
                    cells.push(0);
                }
            }
            table.push(cells);
        }
        let t = CliffordTableau { n, table };
        proof {
            assert forall|k: int| 0 <= k < 2 * n implies t@[k] == #[trigger] identity_rows(
                n as nat,
            )[k] by {
                assert(t@[k] == row_of(t.table@[k]@, n as nat));
                let e = identity_rows(n as nat)[k];
                assert(t@[k].x =~= e.x);
                assert(t@[k].z =~= e.z);
            }
            assert(t@ =~= identity_rows(n as nat));
        }
        t
    }

    /// Set row `h` to the product of rows `h` and `i`.
    #[allow(dead_code)]
    fn rowsum(&mut self, h: usize, i: usize)
        requires
            old(self).wf(),
            h < old(self)@.len(),
            i < old(self)@.len(),
        ensures
            final(self).wf(),
            final(self).qubits() == old(self).qubits(),
            final(self)@ == old(self)@.update(
                h as int,
                pauli::row_mul(old(self)@[h as int], old(self)@[i as int]),
            ),
    {
        let n: usize = self.n;
        let ghost ph = self@[h as int];
        let ghost pi = self@[i as int];
        proof {
            self.lemma_view_shape();
        }

        let mut phase_contrib: u8 = 0;
        for j in 0..n
            invariant
                self.wf(),
                n == self.qubits(),
                h < self@.len(),
                i < self@.len(),
                ph == self@[h as int],
                pi == self@[i as int],
                phase_contrib <= 1,
                (phase_contrib != 0) == (pauli::common_below(ph.z, pi.x, j as nat) % 2 == 1),
        {
            let a: u8 = self.get_z(h, j);
            let b: u8 = self.get_x(i, j);
            proof {
                lemma_bit_ops(a, b);
                lemma_bit_ops(phase_contrib, a & b);
            }
            phase_contrib = phase_contrib ^ (a & b);
        }

        for j in 0..n
            invariant
                self.wf(),
                n == self.qubits(),
                n == old(self).qubits(),
                h < self@.len(),
                i < self@.len(),
                self@.len() == old(self)@.len(),
                ph == old(self)@[h as int],
                pi == old(self)@[i as int],
                ph.on(n as nat),
                pi.on(n as nat),
                forall|k: int|
                    0 <= k < self@.len() && k != h ==> #[trigger] self@[k] == old(self)@[k],
                self@[h as int].on(n as nat),
                self@[h as int].r == ph.r,
                forall|c: int|
                    #![auto]
                    0 <= c < j ==> self@[h as int].x[c] == (ph.x[c] != pi.x[c])
                        && self@[h as int].z[c] == (ph.z[c] != pi.z[c]),
                forall|c: int|
                    #![auto]
                    j <= c < n ==> self@[h as int].x[c] == ph.x[c] && self@[h as int].z[c]
                        == ph.z[c],
        {
            let xh: u8 = self.get_x(h, j);
            let xi: u8 = self.get_x(i, j);
            proof {
                lemma_bit_ops(xh, xi);
            }
            self.set_x(h, j, xh ^ xi);
            let zh: u8 = self.get_z(h, j);
            let zi: u8 = self.get_z(i, j);
            proof {
                lemma_bit_ops(zh, zi);
            }
            self.set_z(h, j, zh ^ zi);
        }

        let rh: u8 = self.get_r(h);
        let ri: u8 = self.get_r(i);
        proof {
            lemma_bit_ops(rh, ri);
            lemma_bit_ops(rh ^ ri, phase_contrib);
        }
        self.set_r(h, rh ^ ri ^ phase_contrib);
        proof {
            let product = pauli::row_mul(ph, pi);
            assert(self@[h as int].x =~= product.x);
            assert(self@[h as int].z =~= product.z);
            assert(self@ =~= old(self)@.update(h as int, product));
        }
    }

    /// Multiply the scratch row `sx | sz | sr` by a tableau row.
    fn scratch_rowsum(&self, sx: &mut Vec<u8>, sz: &mut Vec<u8>, sr: &mut u8, row: usize)
        requires
            self.wf(),
            row < self@.len(),
            old(sx)@.len() == self.qubits(),
            old(sz)@.len() == self.qubits(),
            scratch_wf(old(sx)@, old(sz)@, *old(sr)),
        ensures
            final(sx)@.len() == self.qubits(),
            final(sz)@.len() == self.qubits(),
            scratch_wf(final(sx)@, final(sz)@, *final(sr)),
            scratch_row(final(sx)@, final(sz)@, *final(sr)) == pauli::row_mul(
                scratch_row(old(sx)@, old(sz)@, *old(sr)),
                self@[row as int],
            ),
    {
        let n: usize = self.n;
        let ghost p = scratch_row(sx@, sz@, *sr);
        let ghost q = self@[row as int];
        proof {
            self.lemma_view_shape();
        }

        let mut phase_contrib: u8 = 0;
        for j in 0..n
            invariant
                self.wf(),
                n == self.qubits(),
                row < self@.len(),
                q == self@[row as int],
                sz@.len() == n,
                p.z == bits_of(sz@),
                forall|c: int| 0 <= c < n ==> #[trigger] sz@[c] <= 1,
                phase_contrib <= 1,
                (phase_contrib != 0) == (pauli::common_below(p.z, q.x, j as nat) % 2 == 1),
        {
            let b: u8 = self.get_x(row, j);
            let a: u8 = sz[j];
            proof {
                lemma_bit_ops(a, b);
                lemma_bit_ops(phase_contrib, a & b);
            }
            phase_contrib = phase_contrib ^ (a & b);
        }

        for j in 0..n
            invariant
                self.wf(),
                n == self.qubits(),
                row < self@.len(),
                q == self@[row as int],
                q.on(n as nat),
                p.on(n as nat),
                sx@.len() == n,
                sz@.len() == n,
                forall|c: int| 0 <= c < n ==> #[trigger] sx@[c] <= 1,
                forall|c: int| 0 <= c < n ==> #[trigger] sz@[c] <= 1,
                forall|c: int| 0 <= c < j ==> (#[trigger] sx@[c] != 0) == (p.x[c] != q.x[c]),
                forall|c: int| 0 <= c < j ==> (#[trigger] sz@[c] != 0) == (p.z[c] != q.z[c]),
                forall|c: int| j <= c < n ==> (#[trigger] sx@[c] != 0) == p.x[c],
                forall|c: int| j <= c < n ==> (#[trigger] sz@[c] != 0) == p.z[c],
        {
            let a: u8 = self.get_x(row, j);
            let b: u8 = self.get_z(row, j);
            let x: u8 = sx[j];
            let z: u8 = sz[j];
            proof {
                lemma_bit_ops(x, a);
                lemma_bit_ops(z, b);
            }
            sx.set(j, x ^ a);
            sz.set(j, z ^ b);
        }

        let r: u8 = self.get_r(row);
        proof {
            lemma_bit_ops(r, phase_contrib);
            lemma_bit_ops(*sr, r ^ phase_contrib);
        }
        *sr = *sr ^ (r ^ phase_contrib);
        proof {
            let product = pauli::row_mul(p, q);
            assert(scratch_row(sx@, sz@, *sr).x =~= product.x);
            assert(scratch_row(sx@, sz@, *sr).z =~= product.z);
        }
    }

    /// Multiply the scratch row by a tableau row, or copy the row when nothing has been
    /// multiplied yet.
    fn scratch_step(
        &self,
        sx: &mut Vec<u8>,
        sz: &mut Vec<u8>,
        sr: &mut u8,
        first: bool,
        row: usize,
    )
        requires
            self.wf(),
            row < self@.len(),
            old(sx)@.len() == self.qubits(),
            old(sz)@.len() == self.qubits(),
            scratch_wf(old(sx)@, old(sz)@, *old(sr)),
            first ==> scratch_row(old(sx)@, old(sz)@, *old(sr)) == pauli::identity_row(
                self.qubits(),
            ),
        ensures
            final(sx)@.len() == self.qubits(),
            final(sz)@.len() == self.qubits(),
            scratch_wf(final(sx)@, final(sz)@, *final(sr)),
            scratch_row(final(sx)@, final(sz)@, *final(sr)) == pauli::row_mul(
                scratch_row(old(sx)@, old(sz)@, *old(sr)),
                self@[row as int],
            ),
    {
        if first {
            let n: usize = self.n;
            let ghost q = self@[row as int];
            for j in 0..n
                invariant
                    self.wf(),
                    n == self.qubits(),
                    row < self@.len(),
                    q == self@[row as int],
                    sx@.len() == n,
                    sz@.len() == n,
                    forall|c: int| 0 <= c < n ==> #[trigger] sx@[c] <= 1,
                    forall|c: int| 0 <= c < n ==> #[trigger] sz@[c] <= 1,
                    forall|c: int| 0 <= c < j ==> (#[trigger] sx@[c] != 0) == q.x[c],
                    forall|c: int| 0 <= c < j ==> (#[trigger] sz@[c] != 0) == q.z[c],
            {
                sx.set(j, self.get_x(row, j));
                sz.set(j, self.get_z(row, j));
            }
            *sr = self.get_r(row);
            proof {
                self.lemma_view_shape();
                pauli::lemma_identity_mul(q, self.qubits());
                assert(scratch_row(sx@, sz@, *sr).x =~= q.x);
                assert(scratch_row(sx@, sz@, *sr).z =~= q.z);
            }
        } else {
            self.scratch_rowsum(sx, sz, sr, row);
        }
    }

    /// Transform a Pauli under the current Clifford: the X part, the Z part and the sign
    /// (+1 or -1) of the product of the destabilizers selected by `x_bits` and the
    /// stabilizers selected by `z_bits`.
    pub fn conjugate_pauli(&self, x_bits: &[u8], z_bits: &[u8]) -> (res: (Vec<u8>, Vec<u8>, i8))
        requires
            self.wf(),
            x_bits@.len() == self.qubits(),
            z_bits@.len() == self.qubits(),
        ensures
            res.0@ == bytes_of(
                image(self@, self.qubits(), bits_of(x_bits@), bits_of(z_bits@)).x,
            ),
            res.1@ == bytes_of(
                image(self@, self.qubits(), bits_of(x_bits@), bits_of(z_bits@)).z,
            ),
            res.2 == (if image(self@, self.qubits(), bits_of(x_bits@), bits_of(z_bits@)).r {
                -1i8
            } else {
                1i8
            }),
            bits_of(res.0@) == image(self@, self.qubits(), bits_of(x_bits@), bits_of(z_bits@)).x,
            bits_of(res.1@) == image(self@, self.qubits(), bits_of(x_bits@), bits_of(z_bits@)).z,
            res.2 == -1 <==> image(self@, self.qubits(), bits_of(x_bits@), bits_of(z_bits@)).r,
            res.2 == 1 || res.2 == -1,
    {
        let n: usize = self.n;
        let ghost pick = bits_of(x_bits@) + bits_of(z_bits@);
        proof {
            self.lemma_view_shape();
        }

        let mut scratch_x: Vec<u8> = Vec::new();
        let mut scratch_z: Vec<u8> = Vec::new();
        for j in 0..n
            invariant
                scratch_x@.len() == j,
                scratch_z@.len() == j,
                forall|c: int| 0 <= c < j ==> #[trigger] scratch_x@[c] == 0,
                forall|c: int| 0 <= c < j ==> #[trigger] scratch_z@[c] == 0,
        {
            scratch_x.push(0);
            scratch_z.push(0);
        }
        let mut scratch_r: u8 = 0;
        let mut first: bool = true;
        proof {
            let e = pauli::identity_row(n as nat);
            assert(scratch_row(scratch_x@, scratch_z@, scratch_r).x =~= e.x);
            assert(scratch_row(scratch_x@, scratch_z@, scratch_r).z =~= e.z);
        }

        // Multiply by D_i for each qubit with an X bit.
        for i in 0..n
            invariant
                self.wf(),
                n == self.qubits(),
                self@.len() == 2 * n,
                x_bits@.len() == n,
                z_bits@.len() == n,
                pick == bits_of(x_bits@) + bits_of(z_bits@),
                scratch_x@.len() == n,
                scratch_z@.len() == n,
                scratch_wf(scratch_x@, scratch_z@, scratch_r),
                scratch_row(scratch_x@, scratch_z@, scratch_r) == picked_product(
                    self@,
                    pick,
                    n as nat,
                    i as nat,
                ),
                first ==> scratch_row(scratch_x@, scratch_z@, scratch_r) == pauli::identity_row(
                    n as nat,
                ),
        {
            if x_bits[i] != 0 {
                self.scratch_step(&mut scratch_x, &mut scratch_z, &mut scratch_r, first, i);
                first = false;
            }
        }

        // Multiply by S_i for each qubit with a Z bit.
        for i in 0..n
            invariant
                self.wf(),
                n == self.qubits(),
                self@.len() == 2 * n,
                x_bits@.len() == n,
                z_bits@.len() == n,
                pick == bits_of(x_bits@) + bits_of(z_bits@),
                scratch_x@.len() == n,
                scratch_z@.len() == n,
                scratch_wf(scratch_x@, scratch_z@, scratch_r),
                scratch_row(scratch_x@, scratch_z@, scratch_r) == picked_product(
                    self@,
                    pick,
                    n as nat,
                    (n + i) as nat,
                ),
                first ==> scratch_row(scratch_x@, scratch_z@, scratch_r) == pauli::identity_row(
                    n as nat,
                ),
        {
            if z_bits[i] != 0 {
                self.scratch_step(&mut scratch_x, &mut scratch_z, &mut scratch_r, first, n + i);
                first = false;
            }
        }

        let phase: i8 = if scratch_r == 0 {
            1
        } else {
            -1
        };
        proof {
            let q = scratch_row(scratch_x@, scratch_z@, scratch_r);
            assert(scratch_x@ =~= bytes_of(q.x));
            assert(scratch_z@ =~= bytes_of(q.z));
        }
        (scratch_x, scratch_z, phase)
    }

    /// Whether the tableau represents the identity circuit.
    pub fn is_identity(&self) -> (b: bool)
        requires
            self.wf(),
        ensures
            b == (self@ == identity_rows(self.qubits())),
    {
        let n: usize = self.n;
        let rows: usize = 2 * n;
        let ghost e = identity_rows(n as nat);
        proof {
            self.lemma_view_shape();
        }
        for row in 0..rows
            invariant
                self.wf(),
                n == self.qubits(),
                rows == 2 * n,
                self@.len() == rows,
                e == identity_rows(n as nat),
                forall|k: int| 0 <= k < rows ==> (#[trigger] self@[k]).on(n as nat),
                forall|k: int| 0 <= k < row ==> #[trigger] self@[k] == e[k],
        {
            let ghost p = self@[row as int];
            if self.get_r(row) != 0 {
                assert(!e[row as int].r);
                return false;
            }
            for col in 0..n
                invariant
                    self.wf(),
                    n == self.qubits(),
                    rows == 2 * n,
                    self@.len() == rows,
                    row < rows,
                    p == self@[row as int],
                    e == identity_rows(n as nat),
                    forall|c: int| 0 <= c < col ==> #[trigger] p.x[c] == e[row as int].x[c],
                    forall|c: int| 0 <= c < col ==> #[trigger] p.z[c] == e[row as int].z[c],
            {
                let expected: u8 = if row < n && row == col {
                    1
                } else {
                    0
                };
                if (self.get_x(row, col) != 0) != (expected != 0) {
                    assert(p.x[col as int] != e[row as int].x[col as int]);
                    return false;
                }
                let expected_z: u8 = if row >= n && row - n == col {
                    1
                } else {
                    0
                };
                if (self.get_z(row, col) != 0) != (expected_z != 0) {
                    assert(p.z[col as int] != e[row as int].z[col as int]);
                    return false;
                }
            }
            proof {
                assert(p.x =~= e[row as int].x);
                assert(p.z =~= e[row as int].z);
            }
        }
        proof {
            assert(self@ =~= e);
        }
        true
    }

    /// The number of letters Y in a row, modulo four.
    fn row_letters_y(&self, row: usize) -> (y: u8)
        requires
            self.wf(),
            row < self@.len(),
        ensures
            y == pauli::common(self@[row as int].x, self@[row as int].z) % 4,
    {
        let n: usize = self.n;
        let mut y: u8 = 0;
        proof {
            self.lemma_view_shape();
        }
        for col in 0..n
            invariant
                self.wf(),
                n == self.qubits(),
                row < self@.len(),
                y == pauli::common_below(
                    self@[row as int].x,
                    self@[row as int].z,
                    col as nat,
                ) % 4,
        {
            if self.get_x(row, col) != 0 && self.get_z(row, col) != 0 {
                y = (y + 1) % 4;
            }
        }
        y
    }

    /// The number of letters Y in the rows that a Pauli selects, modulo four.
    fn selected_letters_y(&self, x_bits: &[u8], z_bits: &[u8]) -> (y: u8)
        requires
            self.wf(),
            x_bits@.len() == self.qubits(),
            z_bits@.len() == self.qubits(),
        ensures
            y == y_letters(
                self@,
                bits_of(x_bits@) + bits_of(z_bits@),
                2 * self.qubits(),
            ) % 4,
    {
        let n: usize = self.n;
        let rows: usize = 2 * n;
        let ghost pick = bits_of(x_bits@) + bits_of(z_bits@);
        let mut y: u8 = 0;
        for i in 0..rows
            invariant
                self.wf(),
                n == self.qubits(),
                rows == 2 * n,
                self@.len() == rows,
                x_bits@.len() == n,
                z_bits@.len() == n,
                pick == bits_of(x_bits@) + bits_of(z_bits@),
                y == y_letters(self@, pick, i as nat) % 4,
        {
            let selected: bool = if i < n {
                x_bits[i] != 0
            } else {
                z_bits[i - n] != 0
            };
            if selected {
                y = (y + self.row_letters_y(i)) % 4;
            }
        }
        y
    }

    /// Compose this tableau with another: `self` becomes `other · self`.
    ///
    /// If `self` represents R₁ and `other` represents R₂, then `self` represents R₂ · R₁
    /// afterwards. Each row is transformed through `other`, sign included.
    pub fn compose(&mut self, other: &CliffordTableau)
        requires
            old(self).wf(),
            other.wf(),
            old(self).qubits() == other.qubits(),
        ensures
            final(self).wf(),
            final(self).qubits() == old(self).qubits(),
            final(self)@ == old(self)@.map_values(
                |p: PauliRow| row_image(other@, other.qubits(), p),
            ),
    {
        let n: usize = self.n;
        let rows: usize = 2 * n;
        let ghost before = self@;
        for row in 0..rows
            invariant
                self.wf(),
                other.wf(),
                n == self.qubits(),
                n == other.qubits(),
                n == old(self).qubits(),
                rows == 2 * n,
                self@.len() == rows,
                before == old(self)@,
                before.len() == rows,
                forall|k: int|
                    0 <= k < row ==> #[trigger] self@[k] == row_image(other@, n as nat, before[k]),
                forall|k: int| row <= k < rows ==> #[trigger] self@[k] == before[k],
        {
            proof {
                assert(self@[row as int] == before[row as int]);
            }
            self.compose_row(other, row);
        }
        proof {
            assert(self@ =~= before.map_values(|p: PauliRow| row_image(other@, n as nat, p)));
        }
    }

    /// Transform one row through another tableau.
    fn compose_row(&mut self, other: &CliffordTableau, row: usize)
        requires
            old(self).wf(),
            other.wf(),
            old(self).qubits() == other.qubits(),
            row < old(self)@.len(),
        ensures
            final(self).wf(),
            final(self).qubits() == old(self).qubits(),
            final(self)@ == old(self)@.update(
                row as int,
                row_image(other@, other.qubits(), old(self)@[row as int]),
            ),
    {
        let n: usize = self.n;
        let ghost p = self@[row as int];
        proof {
            self.lemma_view_shape();
            other.lemma_view_shape();
        }
        let mut x_bits: Vec<u8> = Vec::new();
        let mut z_bits: Vec<u8> = Vec::new();
        for col in 0..n
            invariant
                self.wf(),
                n == self.qubits(),
                row < self@.len(),
                *self == *old(self),
                p == self@[row as int],
                x_bits@.len() == col,
                z_bits@.len() == col,
                forall|c: int| 0 <= c < col ==> (#[trigger] x_bits@[c] != 0) == p.x[c],
                forall|c: int| 0 <= c < col ==> (#[trigger] z_bits@[c] != 0) == p.z[c],
        {
            x_bits.push(self.get_x(row, col));
            z_bits.push(self.get_z(row, col));
        }
        let sign: u8 = self.get_r(row);
        let letters_in: u8 = self.row_letters_y(row);
        let letters_of_rows: u8 = other.selected_letters_y(&x_bits, &z_bits);

        let (new_x, new_z, phase) = other.conjugate_pauli(&x_bits, &z_bits);
        let ghost q = image(other@, n as nat, p.x, p.z);
        proof {
            assert(bits_of(x_bits@) =~= p.x);
            assert(bits_of(z_bits@) =~= p.z);
            lemma_image_shape(other@, n as nat, p.x, p.z);
        }

        for col in 0..n
            invariant
                self.wf(),
                n == self.qubits(),
                row < self@.len(),
                self@.len() == old(self)@.len(),
                n == old(self).qubits(),
                q.on(n as nat),
                new_x@ == bytes_of(q.x),
                new_z@ == bytes_of(q.z),
                forall|k: int|
                    0 <= k < self@.len() && k != row ==> #[trigger] self@[k] == old(self)@[k],
                self@[row as int].on(n as nat),
                forall|c: int| 0 <= c < col ==> #[trigger] self@[row as int].x[c] == q.x[c],
                forall|c: int| 0 <= c < col ==> #[trigger] self@[row as int].z[c] == q.z[c],
        {
            self.set_x(row, col, new_x[col]);
            self.set_z(row, col, new_z[col]);
        }
        proof {
            assert(self@[row as int].x =~= q.x);
            assert(self@[row as int].z =~= q.z);
        }
        let letters_out: u8 = self.row_letters_y(row);
        let defect: u8 = (letters_in + letters_of_rows + 4 - letters_out) % 4;
        let flip: u8 = if (phase == -1) != (defect == 2) {
            1
        } else {
            0
        };
        proof {
            lemma_bit_ops(sign, flip);
            lemma_defect_modulo(
                pauli::common(p.x, p.z) as int,
                y_letters(other@, p.x + p.z, 2 * (n as nat)) as int,
                pauli::common(q.x, q.z) as int,
            );
        }
        self.set_r(row, sign ^ flip);
        proof {
            let want = row_image(other@, n as nat, p);
            assert(self@[row as int].x =~= want.x);
            assert(self@[row as int].z =~= want.z);
            assert(self@ =~= old(self)@.update(row as int, want));
        }
    }
}

/// Reducing the counts of letters first does not change their balance modulo four.
proof fn lemma_defect_modulo(a: int, b: int, c: int)
    ensures
        (a % 4 + b % 4 + 4 - c % 4) % 4 == (a + b - c) % 4,
{
}

/// A product of rows on n qubits is a row on n qubits.
pub proof fn lemma_picked_shape(rows: Seq<PauliRow>, pick: Seq<bool>, n: nat, k: nat)
    requires
        k <= rows.len(),
        forall|i: int| 0 <= i < rows.len() ==> (#[trigger] rows[i]).on(n),
    ensures
        picked_product(rows, pick, n, k).on(n),
    decreases k,
{
    if k > 0 {
        lemma_picked_shape(rows, pick, n, (k - 1) as nat);
    }
}

proof fn lemma_image_shape(rows: Seq<PauliRow>, n: nat, x: Seq<bool>, z: Seq<bool>)
    requires
        rows.len() == 2 * n,
        forall|i: int| 0 <= i < rows.len() ==> (#[trigger] rows[i]).on(n),
    ensures
        image(rows, n, x, z).on(n),
{
    lemma_picked_shape(rows, x + z, n, 2 * n);
}

/// Bits come back from the bytes that they are written with, and these are 0 and 1.
pub proof fn law_bits_and_bytes(bits: Seq<bool>)
    ensures
        bits_of(bytes_of(bits)) == bits,
        forall|j: int| 0 <= j < bits.len() ==> #[trigger] bytes_of(bits)[j] <= 1,
{
    assert(bits_of(bytes_of(bits)) =~= bits);
}

} // verus!
