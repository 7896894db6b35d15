//! Model parameters and their checkpoint codec.
//!
//! A model is a weight matrix of shape `output_count x input_count` and a
//! bias vector of length `output_count`, both held as opaque 32-bit words.
//! A checkpoint is a self-describing byte encoding: the two dimensions as
//! big-endian words, then every weight word row-major, then every bias word,
//! each as four big-endian bytes. Decoding an encoding recovers the model
//! exactly.

use vstd::prelude::*;

use crate::bytes::be4;
use crate::bytes::be_val;
use crate::bytes::lemma_be4_injective;
use crate::bytes::lemma_be4_of_val;
use crate::bytes::lemma_val_of_be4;
use crate::bytes::push_be_u32;
use crate::bytes::read_be_u32;
use crate::error::Error;

verus! {

/// The mathematical value of a `Model`: the weight rows, the biases, and the
/// width every weight row has.
#[verifier::ext_equal]
pub ghost struct ModelV {
    pub weights: Seq<Seq<u32>>,
    pub biases: Seq<u32>,
    pub input_count: nat,
}

impl ModelV {
    /// Shape invariant: one bias per weight row, every row as wide as the
    /// input, and both dimensions small enough for the checkpoint header.
    pub open spec fn wf(self) -> bool {
        &&& self.biases.len() == self.weights.len()
        &&& forall|i: int|
            0 <= i < self.weights.len() ==> (#[trigger] self.weights[i]).len()
                == self.input_count
        &&& self.weights.len() < 0x100000000
        &&& self.input_count < 0x100000000
    }
}

/// The bytes of a sequence of words, each as four big-endian bytes.
pub open spec fn words_bytes(ws: Seq<u32>) -> Seq<u8>
    decreases ws.len(),
{
    if ws.len() == 0 {
        Seq::empty()
    } else {
        be4(ws[0] as int) + words_bytes(ws.drop_first())
    }
}

/// The bytes of a matrix: its rows' bytes, row-major.
pub open spec fn matrix_bytes(m: Seq<Seq<u32>>) -> Seq<u8>
    decreases m.len(),
{
    if m.len() == 0 {
        Seq::empty()
    } else {
        words_bytes(m[0]) + matrix_bytes(m.drop_first())
    }
}

/// The checkpoint encoding of a model: row count, row width, weight words
/// row-major, then bias words.
pub open spec fn checkpoint_bytes(v: ModelV) -> Seq<u8> {
    be4(v.weights.len() as int) + be4(v.input_count as int) + matrix_bytes(v.weights)
        + words_bytes(v.biases)
}

/// The row count a checkpoint declares in its first big-endian word.
pub open spec fn checkpoint_rows(bytes: Seq<u8>) -> int
    recommends
        bytes.len() >= 8,
{
    be_val(bytes[0], bytes[1], bytes[2], bytes[3])
}

/// The row width a checkpoint declares in its second big-endian word.
pub open spec fn checkpoint_cols(bytes: Seq<u8>) -> int
    recommends
        bytes.len() >= 8,
{
    be_val(bytes[4], bytes[5], bytes[6], bytes[7])
}

/// A checkpoint byte stream is well-formed when it is exactly as long as its
/// declared dimensions demand.
pub open spec fn checkpoint_wf(bytes: Seq<u8>) -> bool {
    &&& bytes.len() >= 8
    &&& bytes.len() == 8 + 4 * checkpoint_rows(bytes) * checkpoint_cols(bytes) + 4
        * checkpoint_rows(bytes)
}

pub proof fn lemma_words_bytes_len(ws: Seq<u32>)
    ensures
        words_bytes(ws).len() == 4 * ws.len(),
    decreases ws.len(),
{
    if ws.len() > 0 {
        lemma_words_bytes_len(ws.drop_first());
    }
}

pub proof fn lemma_matrix_bytes_len(m: Seq<Seq<u32>>, cols: nat)
    requires
        forall|i: int| 0 <= i < m.len() ==> (#[trigger] m[i]).len() == cols,
    ensures
        matrix_bytes(m).len() == 4 * m.len() * cols,
    decreases m.len(),
{
    let n = m.len() as int;
    let c = cols as int;
    if m.len() > 0 {
        lemma_words_bytes_len(m[0]);
        assert(forall|i: int|
            0 <= i < m.drop_first().len() ==> (#[trigger] m.drop_first()[i]).len() == cols);
        lemma_matrix_bytes_len(m.drop_first(), cols);
        assert(matrix_bytes(m) == words_bytes(m[0]) + matrix_bytes(m.drop_first()));
        assert(matrix_bytes(m.drop_first()).len() == 4 * (n - 1) * c);
        assert(4 * c + 4 * (n - 1) * c == 4 * n * c) by (nonlinear_arith);
    } else {
        assert(4 * n * c == 0) by (nonlinear_arith)
            requires n == 0;
    }
}

proof fn lemma_words_bytes_push(ws: Seq<u32>, x: u32)
    ensures
        words_bytes(ws.push(x)) == words_bytes(ws) + be4(x as int),
    decreases ws.len(),
{
    let p = ws.push(x);
    if ws.len() == 0 {
        assert(p[0] == x);
        assert(p.drop_first() =~= Seq::<u32>::empty());
        assert(words_bytes(p) == be4(p[0] as int) + words_bytes(p.drop_first()));
        assert(words_bytes(p) =~= words_bytes(ws) + be4(x as int));
    } else {
        assert(p[0] == ws[0]);
        assert(p.drop_first() =~= ws.drop_first().push(x));
        lemma_words_bytes_push(ws.drop_first(), x);
        assert(words_bytes(p) == be4(p[0] as int) + words_bytes(p.drop_first()));
        assert(words_bytes(p) =~= words_bytes(ws) + be4(x as int));
    }
}

proof fn lemma_matrix_bytes_push(m: Seq<Seq<u32>>, row: Seq<u32>)
    ensures
        matrix_bytes(m.push(row)) == matrix_bytes(m) + words_bytes(row),
    decreases m.len(),
{
    let p = m.push(row);
    if m.len() == 0 {
        assert(p[0] == row);
        assert(p.drop_first() =~= Seq::<Seq<u32>>::empty());
        assert(matrix_bytes(p) == words_bytes(p[0]) + matrix_bytes(p.drop_first()));
        assert(matrix_bytes(p) =~= matrix_bytes(m) + words_bytes(row));
    } else {
        assert(p[0] == m[0]);
        assert(p.drop_first() =~= m.drop_first().push(row));
        lemma_matrix_bytes_push(m.drop_first(), row);
        assert(matrix_bytes(p) == words_bytes(p[0]) + matrix_bytes(p.drop_first()));
        assert(matrix_bytes(p) =~= matrix_bytes(m) + words_bytes(row));
    }
}

proof fn lemma_words_bytes_inj(a: Seq<u32>, b: Seq<u32>)
    requires
        a.len() == b.len(),
        words_bytes(a) == words_bytes(b),
    ensures
        a == b,
    decreases a.len(),
{
    if a.len() == 0 {
        assert(a =~= b);
    } else {
        let wa = words_bytes(a);
        lemma_words_bytes_len(a.drop_first());
        lemma_words_bytes_len(b.drop_first());
        assert(be4(a[0] as int) =~= wa.subrange(0, 4));
        assert(be4(b[0] as int) =~= wa.subrange(0, 4));
        lemma_be4_injective(a[0] as int, b[0] as int);
        assert(words_bytes(a.drop_first()) =~= wa.subrange(4, wa.len() as int));
        assert(words_bytes(b.drop_first()) =~= wa.subrange(4, wa.len() as int));
        lemma_words_bytes_inj(a.drop_first(), b.drop_first());
        assert forall|i: int| 0 <= i < a.len() implies a[i] == b[i] by {
            if i > 0 {
                assert(a[i] == a.drop_first()[i - 1]);
                assert(b[i] == b.drop_first()[i - 1]);
            }
        }
        assert(a =~= b);
    }
}

proof fn lemma_matrix_bytes_inj(a: Seq<Seq<u32>>, b: Seq<Seq<u32>>, cols: nat)
    requires
        a.len() == b.len(),
        forall|i: int| 0 <= i < a.len() ==> (#[trigger] a[i]).len() == cols,
        forall|i: int| 0 <= i < b.len() ==> (#[trigger] b[i]).len() == cols,
        matrix_bytes(a) == matrix_bytes(b),
    ensures
        a == b,
    decreases a.len(),
{
    if a.len() == 0 {
        assert(a =~= b);
    } else {
        let ma = matrix_bytes(a);
        assert(forall|i: int|
            0 <= i < a.drop_first().len() ==> (#[trigger] a.drop_first()[i]).len() == cols);
        assert(forall|i: int|
            0 <= i < b.drop_first().len() ==> (#[trigger] b.drop_first()[i]).len() == cols);
        lemma_words_bytes_len(a[0]);
        lemma_words_bytes_len(b[0]);
        lemma_matrix_bytes_len(a.drop_first(), cols);
        lemma_matrix_bytes_len(b.drop_first(), cols);
        assert(words_bytes(a[0]) =~= ma.subrange(0, 4 * cols as int));
        assert(words_bytes(b[0]) =~= ma.subrange(0, 4 * cols as int));
        lemma_words_bytes_inj(a[0], b[0]);
        assert(matrix_bytes(a.drop_first()) =~= ma.subrange(4 * cols as int, ma.len() as int));
        assert(matrix_bytes(b.drop_first()) =~= ma.subrange(4 * cols as int, ma.len() as int));
        lemma_matrix_bytes_inj(a.drop_first(), b.drop_first(), cols);
        assert forall|i: int| 0 <= i < a.len() implies a[i] == b[i] by {
            if i > 0 {
                assert(a[i] == a.drop_first()[i - 1]);
                assert(b[i] == b.drop_first()[i - 1]);
            }
        }
        assert(a =~= b);
    }
}

/// A well-formed model's encoding is a well-formed checkpoint, and the
/// checkpoint's header words are the model's dimensions.
pub proof fn lemma_encoding_wf(v: ModelV)
    requires
        v.wf(),
    ensures
        checkpoint_wf(checkpoint_bytes(v)),
        checkpoint_rows(checkpoint_bytes(v)) == v.weights.len(),
        checkpoint_cols(checkpoint_bytes(v)) == v.input_count,
{
    let e = checkpoint_bytes(v);
    let rows = v.weights.len() as int;
    let cols = v.input_count as int;
    lemma_matrix_bytes_len(v.weights, v.input_count);
    lemma_words_bytes_len(v.biases);
    lemma_val_of_be4(rows);
    lemma_val_of_be4(cols);
    assert(e[0] == be4(rows)[0] && e[1] == be4(rows)[1] && e[2] == be4(rows)[2] && e[3] == be4(
        rows,
    )[3]);
    assert(e[4] == be4(cols)[0] && e[5] == be4(cols)[1] && e[6] == be4(cols)[2] && e[7] == be4(
        cols,
    )[3]);
}

/// Checkpoint round trip: a well-formed model is determined by its encoding,
/// so decoding a serialized checkpoint recovers the weight matrix, the bias
/// vector and the shape exactly.
pub proof fn lemma_checkpoint_injective(a: ModelV, b: ModelV)
    requires
        a.wf(),
        b.wf(),
        checkpoint_bytes(a) == checkpoint_bytes(b),
    ensures
        a == b,
{
    let e = checkpoint_bytes(a);
    lemma_encoding_wf(a);
    lemma_encoding_wf(b);
    assert(checkpoint_rows(e) == a.weights.len() && checkpoint_rows(e) == b.weights.len());
    assert(checkpoint_cols(e) == a.input_count && checkpoint_cols(e) == b.input_count);
    let rows = a.weights.len() as int;
    let cols = a.input_count as int;
    lemma_matrix_bytes_len(a.weights, a.input_count);
    lemma_matrix_bytes_len(b.weights, b.input_count);
    lemma_words_bytes_len(a.biases);
    lemma_words_bytes_len(b.biases);
    assert(matrix_bytes(a.weights) =~= e.subrange(8, 8 + 4 * rows * cols));
    assert(matrix_bytes(b.weights) =~= e.subrange(8, 8 + 4 * rows * cols));
    lemma_matrix_bytes_inj(a.weights, b.weights, a.input_count);
    assert(words_bytes(a.biases) =~= e.subrange(8 + 4 * rows * cols, e.len() as int));
    assert(words_bytes(b.biases) =~= e.subrange(8 + 4 * rows * cols, e.len() as int));
    lemma_words_bytes_inj(a.biases, b.biases);
    assert(a =~= b);
}

/// Model parameters: a weight matrix and a bias vector, mutable only through
/// full replacement, as spec'd by the descent operations' callers.
pub struct Model {
    weights: Vec<Vec<u32>>,
    biases: Vec<u32>,
    input_count: usize,
}

impl View for Model {
    type V = ModelV;

    closed spec fn view(&self) -> ModelV {
        ModelV {
            weights: self.weights@.map_values(|r: Vec<u32>| r@),
            biases: self.biases@,
            input_count: self.input_count as nat,
        }
    }
}

impl Model {
    /// Builds a model from its parts, rejecting any shape disagreement: a
    /// bias count different from the row count, a row not as wide as
    /// `input_count`, or a dimension too large for the checkpoint header.
    pub fn from_parts(weights: Vec<Vec<u32>>, biases: Vec<u32>, input_count: usize) -> (r: Result<
        Model,
        Error,
    >)
        ensures
            r is Ok <==> (ModelV {
                weights: weights@.map_values(|row: Vec<u32>| row@),
                biases: biases@,
                input_count: input_count as nat,
            }).wf(),
            r matches Ok(m) ==> m@ == (ModelV {
                weights: weights@.map_values(|row: Vec<u32>| row@),
                biases: biases@,
                input_count: input_count as nat,
            }),
            r is Err ==> r == Err::<Model, Error>(Error::DimensionMismatch),
    {
        if biases.len() != weights.len() {
            return Err(Error::DimensionMismatch);
        }
        if (weights.len() as u64) >= 0x100000000 || (input_count as u64) >= 0x100000000 {
            return Err(Error::DimensionMismatch);
        }
        let rows = weights.len();
        let ghost wv = weights@.map_values(|row: Vec<u32>| row@);
        for i in 0..rows
            invariant
                rows == weights@.len(),
                wv == weights@.map_values(|row: Vec<u32>| row@),
                forall|k: int| 0 <= k < i ==> (#[trigger] weights@[k])@.len() == input_count,
        {
            if weights[i].len() != input_count {
                proof {
                    assert(wv[i as int] == weights@[i as int]@);
                    assert(wv[i as int].len() != input_count);
                }
                return Err(Error::DimensionMismatch);
            }
        }
        proof {
            assert(forall|k: int|
                0 <= k < wv.len() ==> (#[trigger] wv[k]).len() == input_count) by {
                assert(forall|k: int|
                    0 <= k < wv.len() ==> #[trigger] wv[k] == weights@[k]@);
            }
        }
        Ok(Model { weights, biases, input_count })
    }

    /// The number of outputs: the row count of the weight matrix.
    pub fn output_count(&self) -> (r: usize)
        ensures
            r == self@.weights.len(),
    {
        self.weights.len()
    }

    /// The input width every weight row has.
    pub fn input_count(&self) -> (r: usize)
        ensures
            r == self@.input_count,
    {
        self.input_count
    }

    /// The weight rows.
    pub fn weights(&self) -> (r: &Vec<Vec<u32>>)
        ensures
            r@.len() == self@.weights.len(),
            forall|i: int| 0 <= i < r@.len() ==> r@[i]@ == self@.weights[i],
    {
        &self.weights
    }

    /// The bias words.
    pub fn biases(&self) -> (r: &Vec<u32>)
        ensures
            r@ == self@.biases,
    {
        &self.biases
    }

    /// Accepts exactly an input vector length that matches the model's width;
    /// anything else is a dimension mismatch.
    pub fn validate_input_len(&self, len: usize) -> (r: Result<(), Error>)
        ensures
            r is Ok <==> len == self@.input_count,
            r is Err ==> r == Err::<(), Error>(Error::DimensionMismatch),
    {
        if len == self.input_count {
            Ok(())
        } else {
            Err(Error::DimensionMismatch)
        }
    }

    /// Encodes the model as a self-describing checkpoint.
    pub fn serialize(&self) -> (r: Vec<u8>)
        requires
            self@.wf(),
        ensures
            r@ == checkpoint_bytes(self@),
            checkpoint_wf(r@),
    {
        let ghost wv = self@.weights;
        let rows = self.weights.len();
        let mut out: Vec<u8> = Vec::new();
        push_be_u32(&mut out, rows as u32);
        push_be_u32(&mut out, self.input_count as u32);
        let ghost header = be4(rows as int) + be4(self.input_count as int);
        assert(out@ =~= header + matrix_bytes(wv.subrange(0, 0)));
        for i in 0..rows
            invariant
                rows == self.weights@.len(),
                wv == self@.weights,
                self@.wf(),
                header == be4(rows as int) + be4(self@.input_count as int),
                out@ == header + matrix_bytes(wv.subrange(0, i as int)),
        {
            let row = &self.weights[i];
            let width = row.len();
            let ghost rv = wv[i as int];
            assert(rv == row@);
            for j in 0..width
                invariant
                    width == row@.len(),
                    rv == row@,
                    out@ == header + matrix_bytes(wv.subrange(0, i as int)) + words_bytes(
                        rv.subrange(0, j as int),
                    ),
            {
                push_be_u32(&mut out, row[j]);
                proof {
                    lemma_words_bytes_push(rv.subrange(0, j as int), rv[j as int]);
                    assert(rv.subrange(0, j + 1) =~= rv.subrange(0, j as int).push(rv[j as int]));
                    assert(out@ =~= header + matrix_bytes(wv.subrange(0, i as int)) + words_bytes(
                        rv.subrange(0, j + 1),
                    ));
                }
            }
            proof {
                assert(rv.subrange(0, rv.len() as int) =~= rv);
                lemma_matrix_bytes_push(wv.subrange(0, i as int), rv);
                assert(wv.subrange(0, i + 1) =~= wv.subrange(0, i as int).push(rv));
                assert(out@ =~= header + matrix_bytes(wv.subrange(0, i + 1)));
            }
        }
        proof {
            assert(wv.subrange(0, wv.len() as int) =~= wv);
        }
        let ghost bv = self@.biases;
        for i in 0..rows
            invariant
                rows == self.biases@.len(),
                bv == self@.biases,
                wv == self@.weights,
                header == be4(rows as int) + be4(self@.input_count as int),
                out@ == header + matrix_bytes(wv) + words_bytes(bv.subrange(0, i as int)),
        {
            push_be_u32(&mut out, self.biases[i]);
            proof {
                lemma_words_bytes_push(bv.subrange(0, i as int), bv[i as int]);
                assert(bv.subrange(0, i + 1) =~= bv.subrange(0, i as int).push(bv[i as int]));
                assert(out@ =~= header + matrix_bytes(wv) + words_bytes(bv.subrange(0, i + 1)));
            }
        }
        proof {
            assert(bv.subrange(0, bv.len() as int) =~= bv);
            assert(out@ =~= checkpoint_bytes(self@));
            lemma_encoding_wf(self@);
        }
        out
    }

    /// Decodes a checkpoint. Succeeds exactly on well-formed checkpoint byte
    /// streams, and then returns the one model the stream encodes.
    pub fn deserialize(bytes: &[u8]) -> (r: Result<Model, Error>)
        ensures
            r is Ok <==> checkpoint_wf(bytes@),
            r is Err ==> r == Err::<Model, Error>(Error::CorruptCheckpoint),
            r matches Ok(m) ==> m@.wf() && checkpoint_bytes(m@) == bytes@,
    {
        let len = bytes.len();
        if len < 8 {
            return Err(Error::CorruptCheckpoint);
        }
        let rows_w = read_be_u32(bytes, 0);
        let cols_w = read_be_u32(bytes, 4);
        let r128 = rows_w as u128;
        let c128 = cols_w as u128;
        proof {
            assert(4 * r128 * c128 < 0x10000000000000000000) by (nonlinear_arith)
                requires
                    r128 < 0x100000000,
                    c128 < 0x100000000,
            ;
        }
        let need: u128 = 8 + 4 * r128 * c128 + 4 * r128;
        if (len as u128) != need {
            return Err(Error::CorruptCheckpoint);
        }
        let rows = rows_w as usize;
        let cols = cols_w as usize;
        let ghost ri = rows as int;
        let ghost ci = cols as int;
        let ghost wtotal = 4 * ri * ci;
        assert(bytes@.len() == 8 + wtotal + 4 * ri);
        assert(checkpoint_wf(bytes@));
        let mut weights: Vec<Vec<u32>> = Vec::new();
        let mut pos: usize = 8;
        proof {
            assert(4 * ci * 0 == 0) by (nonlinear_arith);
            assert(weights@.map_values(|row: Vec<u32>| row@) =~= Seq::<Seq<u32>>::empty());
            assert(matrix_bytes(Seq::<Seq<u32>>::empty()) == Seq::<u8>::empty());
            assert(bytes@.subrange(8, 8) =~= Seq::<u8>::empty());
        }
        for i in 0..rows
            invariant
                bytes@.len() == len,
                len == 8 + wtotal + 4 * ri,
                wtotal == 4 * ri * ci,
                ri == rows,
                ci == cols,
                pos == 8 + 4 * ci * i,
                weights@.len() == i,
                forall|k: int| 0 <= k < i ==> (#[trigger] weights@[k])@.len() == cols,
                matrix_bytes(weights@.map_values(|row: Vec<u32>| row@)) == bytes@.subrange(
                    8,
                    pos as int,
                ),
        {
            proof {
                assert(4 * ci * i + 4 * ci <= wtotal) by (nonlinear_arith)
                    requires
                        wtotal == 4 * ri * ci,
                        0 <= i < ri,
                        0 <= ci,
                ;
            }
            let ghost base = pos as int;
            let mut row: Vec<u32> = Vec::new();
            proof {
                assert(words_bytes(Seq::<u32>::empty()) == Seq::<u8>::empty());
                assert(bytes@.subrange(base, base) =~= Seq::<u8>::empty());
            }
            for j in 0..cols
                invariant
                    bytes@.len() == len,
                    len == 8 + wtotal + 4 * ri,
                    0 <= ri,
                    base == 8 + 4 * ci * i,
                    ci == cols,
                    base + 4 * ci <= 8 + wtotal,
                    pos == base + 4 * j,
                    row@.len() == j,
                    words_bytes(row@) == bytes@.subrange(base, pos as int),
            {
                let w = read_be_u32(bytes, pos);
                proof {
                    lemma_be4_of_val(
                        bytes@[pos as int],
                        bytes@[pos + 1],
                        bytes@[pos + 2],
                        bytes@[pos + 3],
                    );
                    lemma_words_bytes_push(row@, w);
                    assert(be4(w as int) =~= bytes@.subrange(pos as int, pos + 4));
                    assert(bytes@.subrange(base, pos + 4) =~= bytes@.subrange(base, pos as int)
                        + bytes@.subrange(pos as int, pos + 4));
                }
                row.push(w);
                pos = pos + 4;
            }
            proof {
                lemma_matrix_bytes_push(weights@.map_values(|r: Vec<u32>| r@), row@);
                assert((weights@.push(row)).map_values(|r: Vec<u32>| r@) =~= weights@.map_values(
                    |r: Vec<u32>| r@,
                ).push(row@));
                assert(bytes@.subrange(8, base + 4 * ci) =~= bytes@.subrange(8, base)
                    + bytes@.subrange(base, base + 4 * ci));
                assert(4 * ci * (i + 1) == 4 * ci * i + 4 * ci) by (nonlinear_arith);
            }
            weights.push(row);
        }
        assert(pos == 8 + wtotal) by {
            assert(4 * ci * ri == wtotal) by (nonlinear_arith)
                requires
                    wtotal == 4 * ri * ci,
            ;
        }
        let mut biases: Vec<u32> = Vec::new();
        proof {
            assert(0 <= wtotal) by (nonlinear_arith)
                requires
                    wtotal == 4 * ri * ci,
                    0 <= ri,
                    0 <= ci,
            ;
            assert(words_bytes(Seq::<u32>::empty()) == Seq::<u8>::empty());
            assert(bytes@.subrange(8 + wtotal, 8 + wtotal) =~= Seq::<u8>::empty());
        }
        for i in 0..rows
            invariant
                bytes@.len() == len,
                len == 8 + wtotal + 4 * ri,
                0 <= wtotal,
                ri == rows,
                pos == 8 + wtotal + 4 * i,
                biases@.len() == i,
                words_bytes(biases@) == bytes@.subrange(8 + wtotal, pos as int),
        {
            let w = read_be_u32(bytes, pos);
            proof {
                lemma_be4_of_val(
                    bytes@[pos as int],
                    bytes@[pos + 1],
                    bytes@[pos + 2],
                    bytes@[pos + 3],
                );
                lemma_words_bytes_push(biases@, w);
                assert(be4(w as int) =~= bytes@.subrange(pos as int, pos + 4));
                assert(bytes@.subrange(8 + wtotal, pos + 4) =~= bytes@.subrange(
                    8 + wtotal,
                    pos as int,
                ) + bytes@.subrange(pos as int, pos + 4));
            }
            biases.push(w);
            pos = pos + 4;
        }
        let m = Model { weights, biases, input_count: cols };
        proof {
            lemma_be4_of_val(bytes@[0], bytes@[1], bytes@[2], bytes@[3]);
            lemma_be4_of_val(bytes@[4], bytes@[5], bytes@[6], bytes@[7]);
            assert(be4(ri) =~= bytes@.subrange(0, 4));
            assert(be4(ci) =~= bytes@.subrange(4, 8));
            assert(m@.wf());
            assert(checkpoint_bytes(m@) =~= bytes@.subrange(0, 4) + bytes@.subrange(4, 8)
                + bytes@.subrange(8, 8 + wtotal) + bytes@.subrange(8 + wtotal, len as int));
            assert(bytes@.subrange(0, 4) + bytes@.subrange(4, 8) + bytes@.subrange(8, 8 + wtotal)
                + bytes@.subrange(8 + wtotal, len as int) =~= bytes@);
        }
        Ok(m)
    }
}

/// `k` is the first index attaining the maximum of `s`: everything before it
/// is strictly smaller, nothing after it is larger.
pub open spec fn is_first_max(s: Seq<u32>, k: int) -> bool {
    &&& 0 <= k < s.len()
    &&& forall|j: int| 0 <= j < k ==> s[j] < s[k]
    &&& forall|j: int| 0 <= j < s.len() ==> s[j] <= s[k]
}

/// The first index attaining the maximum value, by a stable left-to-right
/// scan: on ties the earlier index wins. This is the class decision an
/// accuracy evaluation makes on a prediction vector.
pub fn argmax(values: &[u32]) -> (r: usize)
    requires
        values@.len() >= 1,
    ensures
        is_first_max(values@, r as int),
{
    let mut best: usize = 0;
    let n = values.len();
    for i in 1..n
        invariant
            n == values@.len(),
            0 <= best < i <= n,
            forall|j: int| 0 <= j < best ==> values@[j] < values@[best as int],
            forall|j: int| 0 <= j < i ==> values@[j] <= values@[best as int],
    {
        if values[i] > values[best] {
            best = i;
        }
    }
    best
}

} // verus!
