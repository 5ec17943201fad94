use vstd::prelude::*;

verus! {

/// Failure of reading a persisted model back from bytes.
#[derive(Debug, PartialEq, Eq, Structural)]
pub enum ModelError {
    CorruptModel,
}

/// A trained k-nearest-neighbour model over grayscale images.
///
/// A feature vector is the row-major sequence of 8-bit grayscale intensities
/// of an image resized to `target_width x target_height`; each intensity `p`
/// stands for the normalized value `p / 255`, so comparisons of squared
/// integer distances order vectors exactly as Euclidean distances over the
/// normalized values do. `y_train[i]` is the label of `x_train[i]`
/// (1 = good, 0 = bad).
pub struct ImageClassifier {
    pub target_width: u32,
    pub target_height: u32,
    pub x_train: Vec<Vec<u8>>,
    pub y_train: Vec<i32>,
    pub k: usize,
}

impl ImageClassifier {
    /// Length every stored and query feature vector must have.
    pub open spec fn num_features(self) -> int {
        self.target_width * self.target_height
    }

    /// Number of training samples.
    pub open spec fn num_samples(self) -> int {
        self.x_train@.len() as int
    }

    /// The training vectors as mathematical sequences.
    pub open spec fn rows(self) -> Seq<Seq<u8>> {
        Seq::new(self.x_train@.len(), |i: int| self.x_train@[i]@)
    }

    /// Well-formedness: positive dimensions, one label per vector, every
    /// vector of the fixed length, every label 0 or 1.
    pub open spec fn wf(self) -> bool {
        &&& self.target_width >= 1
        &&& self.target_height >= 1
        &&& self.x_train@.len() == self.y_train@.len()
        &&& forall|i: int|
            0 <= i < self.x_train@.len() ==> (#[trigger] self.x_train@[i]@).len()
                == self.num_features()
        &&& forall|i: int|
            0 <= i < self.y_train@.len() ==> #[trigger] self.y_train@[i] == 0
                || self.y_train@[i] == 1
    }

    /// An empty model with the given encoding resolution and neighbour count.
    pub fn new(target_width: u32, target_height: u32, k: usize) -> (m: Self)
        requires
            target_width >= 1,
            target_height >= 1,
        ensures
            m.wf(),
            m.target_width == target_width,
            m.target_height == target_height,
            m.k == k,
            m.num_samples() == 0,
    {
        ImageClassifier {
            target_width,
            target_height,
            x_train: Vec::new(),
            y_train: Vec::new(),
            k,
        }
    }

    /// Appends one training sample, keeping vectors and labels aligned.
    pub fn push_sample(&mut self, features: Vec<u8>, label: i32)
        requires
            old(self).wf(),
            features@.len() == old(self).num_features(),
            label == 0 || label == 1,
        ensures
            final(self).wf(),
            final(self).target_width == old(self).target_width,
            final(self).target_height == old(self).target_height,
            final(self).k == old(self).k,
            final(self).num_samples() == old(self).num_samples() + 1,
            final(self).rows() =~= old(self).rows().push(features@),
            final(self).y_train@ =~= old(self).y_train@.push(label),
    {
        self.x_train.push(features);
        self.y_train.push(label);
    }
}

/// The four little-endian bytes of a 32-bit value.
pub open spec fn le32(x: u32) -> Seq<u8> {
    seq![
        (x % 256) as u8,
        ((x / 0x100) % 256) as u8,
        ((x / 0x10000) % 256) as u8,
        ((x / 0x1000000) % 256) as u8,
    ]
}

/// The eight little-endian bytes of a 64-bit value.
pub open spec fn le64(x: u64) -> Seq<u8> {
    seq![
        (x % 256) as u8,
        ((x / 0x100) % 256) as u8,
        ((x / 0x10000) % 256) as u8,
        ((x / 0x1000000) % 256) as u8,
        ((x / 0x100000000) % 256) as u8,
        ((x / 0x10000000000) % 256) as u8,
        ((x / 0x1000000000000) % 256) as u8,
        ((x / 0x100000000000000) % 256) as u8,
    ]
}

/// The value of four little-endian bytes.
pub open spec fn dec32(b: Seq<u8>) -> int {
    b[0] + 0x100 * b[1] + 0x10000 * b[2] + 0x1000000 * b[3]
}

/// The value of eight little-endian bytes.
pub open spec fn dec64(b: Seq<u8>) -> int {
    b[0] + 0x100 * b[1] + 0x10000 * b[2] + 0x1000000 * b[3] + 0x100000000 * b[4]
        + 0x10000000000 * b[5] + 0x1000000000000 * b[6] + 0x100000000000000 * b[7]
}

pub proof fn lemma_le32_roundtrip(x: u32)
    ensures
        dec32(le32(x)) == x,
{
    assert((x % 256) as u8 + 0x100 * (((x / 0x100) % 256) as u8) + 0x10000 * (((x / 0x10000)
        % 256) as u8) + 0x1000000 * (((x / 0x1000000) % 256) as u8) == x) by (bit_vector);
}

pub proof fn lemma_le64_roundtrip(x: u64)
    ensures
        dec64(le64(x)) == x,
{
    assert((x % 256) as u8 + 0x100 * (((x / 0x100) % 256) as u8) + 0x10000 * (((x / 0x10000)
        % 256) as u8) + 0x1000000 * (((x / 0x1000000) % 256) as u8) + 0x100000000 * (((x
        / 0x100000000) % 256) as u8) + 0x10000000000 * (((x / 0x10000000000) % 256) as u8)
        + 0x1000000000000 * (((x / 0x1000000000000) % 256) as u8) + 0x100000000000000 * (((x
        / 0x100000000000000) % 256) as u8) == x) by (bit_vector);
}

/// The training vectors, concatenated row-major.
pub open spec fn rows_bytes(rows: Seq<Seq<u8>>) -> Seq<u8>
    decreases rows.len(),
{
    if rows.len() == 0 {
        Seq::empty()
    } else {
        rows_bytes(rows.drop_last()) + rows.last()
    }
}

/// One byte per label, in sample order.
pub open spec fn labels_bytes(ys: Seq<i32>) -> Seq<u8>
    decreases ys.len(),
{
    if ys.len() == 0 {
        Seq::empty()
    } else {
        labels_bytes(ys.drop_last()).push(ys.last() as u8)
    }
}

/// The persisted byte layout of a model: width, height, k and sample count in
/// little-endian, then all feature vectors row-major, then one byte per label.
pub open spec fn spec_save(m: ImageClassifier) -> Seq<u8> {
    le32(m.target_width) + le32(m.target_height) + le64(m.k as u64) + le64(
        m.x_train@.len() as u64,
    ) + rows_bytes(m.rows()) + labels_bytes(m.y_train@)
}

pub proof fn lemma_rows_bytes_len(rows: Seq<Seq<u8>>, f: int)
    requires
        forall|i: int| 0 <= i < rows.len() ==> (#[trigger] rows[i]).len() == f,
    ensures
        rows_bytes(rows).len() == rows.len() * f,
    decreases rows.len(),
{
    if rows.len() == 0 {
    } else {
        lemma_rows_bytes_len(rows.drop_last(), f);
        assert((rows.len() - 1) * f + f == rows.len() * f) by (nonlinear_arith);
    }
}

pub proof fn lemma_labels_bytes_len(ys: Seq<i32>)
    ensures
        labels_bytes(ys).len() == ys.len(),
    decreases ys.len(),
{
    if ys.len() > 0 {
        lemma_labels_bytes_len(ys.drop_last());
    }
}

pub proof fn lemma_rows_bytes_index(rows: Seq<Seq<u8>>, f: int, i: int, j: int)
    requires
        forall|i2: int| 0 <= i2 < rows.len() ==> (#[trigger] rows[i2]).len() == f,
        0 <= i < rows.len(),
        0 <= j < f,
    ensures
        rows_bytes(rows).len() == rows.len() * f,
        rows_bytes(rows)[i * f + j] == rows[i][j],
    decreases rows.len(),
{
    lemma_rows_bytes_len(rows, f);
    let pre = rows.drop_last();
    lemma_rows_bytes_len(pre, f);
    if i == rows.len() - 1 {
        assert(i * f + j - pre.len() * f == j);
    } else {
        lemma_rows_bytes_index(pre, f, i, j);
        assert((i + 1) * f <= pre.len() * f) by (nonlinear_arith)
            requires
                i + 1 <= pre.len(),
                f >= 0,
        ;
        assert(i * f + j < pre.len() * f) by (nonlinear_arith)
            requires
                (i + 1) * f <= pre.len() * f,
                0 <= j < f,
        ;
    }
}

pub proof fn lemma_labels_bytes_index(ys: Seq<i32>, i: int)
    requires
        0 <= i < ys.len(),
    ensures
        labels_bytes(ys).len() == ys.len(),
        labels_bytes(ys)[i] == ys[i] as u8,
    decreases ys.len(),
{
    lemma_labels_bytes_len(ys);
    if i < ys.len() - 1 {
        lemma_labels_bytes_index(ys.drop_last(), i);
    } else {
        lemma_labels_bytes_len(ys.drop_last());
    }
}

fn push_u32(out: &mut Vec<u8>, x: u32)
    ensures
        final(out)@ == old(out)@ + le32(x),
{
    let ghost pre = out@;
    out.push((x % 256) as u8);
    out.push(((x / 0x100) % 256) as u8);
    out.push(((x / 0x10000) % 256) as u8);
    out.push(((x / 0x1000000) % 256) as u8);
    proof {
        assert(out@ =~= pre + le32(x));
    }
}

fn push_u64(out: &mut Vec<u8>, x: u64)
    ensures
        final(out)@ == old(out)@ + le64(x),
{
    let ghost pre = out@;
    out.push((x % 256) as u8);
    out.push(((x / 0x100) % 256) as u8);
    out.push(((x / 0x10000) % 256) as u8);
    out.push(((x / 0x1000000) % 256) as u8);
    out.push(((x / 0x100000000) % 256) as u8);
    out.push(((x / 0x10000000000) % 256) as u8);
    out.push(((x / 0x1000000000000) % 256) as u8);
    out.push(((x / 0x100000000000000) % 256) as u8);
    proof {
        assert(out@ =~= pre + le64(x));
    }
}

fn read_u32(bytes: &Vec<u8>, off: usize) -> (x: u32)
    requires
        off + 4 <= bytes@.len(),
    ensures
        x as int == dec32(bytes@.subrange(off as int, off as int + 4)),
{
    let n = bytes.len();
    let b0 = bytes[off] as u32;
    let b1 = bytes[off + 1] as u32;
    let b2 = bytes[off + 2] as u32;
    let b3 = bytes[off + 3] as u32;
    b0 + 0x100 * b1 + 0x10000 * b2 + 0x1000000 * b3
}

fn read_u64(bytes: &Vec<u8>, off: usize) -> (x: u64)
    requires
        off + 8 <= bytes@.len(),
    ensures
        x as int == dec64(bytes@.subrange(off as int, off as int + 8)),
{
    let n = bytes.len();
    let b0 = bytes[off] as u64;
    let b1 = bytes[off + 1] as u64;
    let b2 = bytes[off + 2] as u64;
    let b3 = bytes[off + 3] as u64;
    let b4 = bytes[off + 4] as u64;
    let b5 = bytes[off + 5] as u64;
    let b6 = bytes[off + 6] as u64;
    let b7 = bytes[off + 7] as u64;
    b0 + 0x100 * b1 + 0x10000 * b2 + 0x1000000 * b3 + 0x100000000 * b4 + 0x10000000000 * b5
        + 0x1000000000000 * b6 + 0x100000000000000 * b7
}

/// Structural validity of persisted model bytes: the header values are in
/// range, the total length matches the sample count and resolution, and every
/// label byte is 0 or 1.
pub open spec fn valid_model_bytes(b: Seq<u8>) -> bool {
    &&& b.len() >= 24
    &&& {
        let w = dec32(b.subrange(0, 4));
        let h = dec32(b.subrange(4, 8));
        let k = dec64(b.subrange(8, 16));
        let n = dec64(b.subrange(16, 24));
        let f = w * h;
        &&& w >= 1
        &&& h >= 1
        &&& k <= usize::MAX
        &&& n <= usize::MAX
        &&& b.len() == 24 + n * f + n
        &&& forall|i: int|
            0 <= i < n ==> #[trigger] b[24 + n * f + i] == 0 || b[24 + n * f + i] == 1
    }
}

/// What a successful load guarantees: the model is well formed and each of
/// its fields is the value the bytes spell at its place in the layout.
pub open spec fn loaded_from(m: ImageClassifier, b: Seq<u8>) -> bool {
    let f = m.num_features();
    let n = m.num_samples();
    &&& m.wf()
    &&& b.len() >= 24
    &&& m.target_width as int == dec32(b.subrange(0, 4))
    &&& m.target_height as int == dec32(b.subrange(4, 8))
    &&& m.k as int == dec64(b.subrange(8, 16))
    &&& n == dec64(b.subrange(16, 24))
    &&& forall|i: int, j: int|
        #![trigger m.rows()[i], b[24 + i * f + j]]
        0 <= i < n && 0 <= j < f ==> m.rows()[i][j] == b[24 + i * f + j]
    &&& forall|i: int| 0 <= i < n ==> (#[trigger] m.y_train@[i]) as int == b[24 + n * f + i]
}

impl ImageClassifier {
    /// Serializes the model into its persisted byte layout.
    pub fn save(&self) -> (bytes: Vec<u8>)
        requires
            self.wf(),
        ensures
            bytes@ == spec_save(*self),
    {
        let mut out: Vec<u8> = Vec::new();
        push_u32(&mut out, self.target_width);
        push_u32(&mut out, self.target_height);
        push_u64(&mut out, self.k as u64);
        push_u64(&mut out, self.x_train.len() as u64);
        let ghost header = out@;
        let n = self.x_train.len();
        let mut i: usize = 0;
        while i < n
            invariant
                self.wf(),
                n == self.x_train@.len(),
                i <= n,
                out@ == header + rows_bytes(self.rows().subrange(0, i as int)),
            decreases n - i,
        {
            let row = &self.x_train[i];
            let rl = row.len();
            let ghost pre = out@;
            let mut j: usize = 0;
            while j < rl
                invariant
                    rl == row@.len(),
                    j <= rl,
                    out@ == pre + row@.subrange(0, j as int),
                decreases rl - j,
            {
                proof {
                    assert(row@.subrange(0, j as int + 1) =~= row@.subrange(0, j as int).push(
                        row@[j as int],
                    ));
                }
                out.push(row[j]);
                j = j + 1;
            }
            proof {
                let ri = self.rows().subrange(0, i as int + 1);
                assert(row@.subrange(0, rl as int) =~= row@);
                assert(ri.drop_last() =~= self.rows().subrange(0, i as int));
                assert(ri.last() == self.rows()[i as int]);
                assert(out@ =~= header + rows_bytes(ri));
            }
            i = i + 1;
        }
        proof {
            assert(self.rows().subrange(0, n as int) =~= self.rows());
        }
        let ghost with_rows = out@;
        let mut t: usize = 0;
        while t < n
            invariant
                self.wf(),
                n == self.y_train@.len(),
                t <= n,
                out@ == with_rows + labels_bytes(self.y_train@.subrange(0, t as int)),
            decreases n - t,
        {
            proof {
                let lt = self.y_train@.subrange(0, t as int + 1);
                assert(lt.drop_last() =~= self.y_train@.subrange(0, t as int));
                assert(lt.last() == self.y_train@[t as int]);
                assert((with_rows + labels_bytes(self.y_train@.subrange(0, t as int))).push(
                    self.y_train@[t as int] as u8,
                ) =~= with_rows + labels_bytes(lt));
            }
            let lab = self.y_train[t];
            out.push(lab as u8);
            t = t + 1;
        }
        proof {
            assert(self.y_train@.subrange(0, n as int) =~= self.y_train@);
        }
        out
    }

    /// Reads a model back from its persisted byte layout, after structural
    /// validation; fails with `CorruptModel` exactly when the bytes are not a
    /// valid layout.
    #[verifier::loop_isolation(false)]
    pub fn load(bytes: &Vec<u8>) -> (r: Result<ImageClassifier, ModelError>)
        ensures
            r matches Ok(m) ==> valid_model_bytes(bytes@) && loaded_from(m, bytes@),
            r matches Err(e) ==> !valid_model_bytes(bytes@) && e == ModelError::CorruptModel,
    {
        let len = bytes.len();
        if len < 24 {
            return Err(ModelError::CorruptModel);
        }
        let w = read_u32(bytes, 0);
        let h = read_u32(bytes, 4);
        let k64 = read_u64(bytes, 8);
        let n64 = read_u64(bytes, 16);
        if w == 0 || h == 0 {
            return Err(ModelError::CorruptModel);
        }
        if k64 > usize::MAX as u64 || n64 > usize::MAX as u64 {
            return Err(ModelError::CorruptModel);
        }
        proof {
            assert((w as int) * (h as int) <= 0xFFFFFFFF * 0xFFFFFFFF) by (nonlinear_arith)
                requires
                    w as int <= 0xFFFFFFFF,
                    h as int <= 0xFFFFFFFF,
            ;
        }
        let feat64: u64 = (w as u64) * (h as u64);
        proof {
            assert((n64 as int) * (feat64 as int) <= 0xFFFFFFFFFFFFFFFF * 0xFFFFFFFFFFFFFFFF)
                by (nonlinear_arith)
                requires
                    n64 as int <= 0xFFFFFFFFFFFFFFFF,
                    feat64 as int <= 0xFFFFFFFFFFFFFFFF,
            ;
        }
        let total: u128 = 24 + (n64 as u128) * (feat64 as u128) + (n64 as u128);
        if (len as u128) != total {
            return Err(ModelError::CorruptModel);
        }
        let n: usize = n64 as usize;
        let ghost fi = feat64 as int;
        let mut x_train: Vec<Vec<u8>> = Vec::new();
        let mut off: usize = 24;
        let mut i: usize = 0;
        while i < n
            invariant
                len == bytes@.len(),
                n == n64,
                fi == feat64,
                fi == w * h,
                len as int == 24 + n * fi + n,
                off as int == 24 + i * fi,
                i <= n,
                x_train@.len() == i,
                forall|i2: int| 0 <= i2 < i ==> (#[trigger] x_train@[i2]@).len() == fi,
                forall|i2: int, j: int|
                    #![trigger x_train@[i2]@[j]]
                    0 <= i2 < i && 0 <= j < fi ==> x_train@[i2]@[j] == bytes@[24 + i2 * fi + j],
            decreases n - i,
        {
            proof {
                assert((i + 1) * fi <= n * fi && i * fi + fi == (i + 1) * fi && fi <= n * fi)
                    by (nonlinear_arith)
                    requires
                        i + 1 <= n,
                        1 <= n,
                        fi >= 0,
                ;
            }
            let f: usize = feat64 as usize;
            let mut row: Vec<u8> = Vec::new();
            let mut j: usize = 0;
            while j < f
                invariant
                    len == bytes@.len(),
                    f == fi,
                    off as int + f as int <= len as int,
                    j <= f,
                    row@.len() == j,
                    forall|j2: int| 0 <= j2 < j ==> (#[trigger] row@[j2]) == bytes@[off + j2],
                decreases f - j,
            {
                let byte = bytes[off + j];
                row.push(byte);
                j = j + 1;
            }
            x_train.push(row);
            off = off + f;
            i = i + 1;
        }
        let mut y_train: Vec<i32> = Vec::new();
        let mut t: usize = 0;
        while t < n
            invariant
                len == bytes@.len(),
                n == n64,
                fi == feat64,
                off as int == 24 + n * fi,
                len as int == 24 + n * fi + n,
                t <= n,
                y_train@.len() == t,
                forall|t2: int|
                    0 <= t2 < t ==> (#[trigger] y_train@[t2]) as int == bytes@[off + t2] && (
                    y_train@[t2] == 0 || y_train@[t2] == 1),
            decreases n - t,
        {
            let lb = bytes[off + t];
            if lb > 1 {
                proof {
                    let bb = bytes@;
                    if valid_model_bytes(bb) {
                        let wv = dec32(bb.subrange(0, 4));
                        let hv = dec32(bb.subrange(4, 8));
                        let nv = dec64(bb.subrange(16, 24));
                        let fv = wv * hv;
                        assert(nv == n && fv == fi);
                        assert(bb[24 + nv * fv + t as int] == 0 || bb[24 + nv * fv + t as int]
                            == 1);
                        assert(false);
                    }
                }
                return Err(ModelError::CorruptModel);
            }
            y_train.push(lb as i32);
            t = t + 1;
        }
        proof {
            let bb = bytes@;
            let wv = dec32(bb.subrange(0, 4));
            let hv = dec32(bb.subrange(4, 8));
            let kv = dec64(bb.subrange(8, 16));
            let nv = dec64(bb.subrange(16, 24));
            let fv = wv * hv;
            assert(wv == w as int && hv == h as int && kv == k64 as int && nv == n64 as int);
            assert(fv == fi);
            assert(bb.len() == 24 + nv * fv + nv);
            assert forall|i2: int| 0 <= i2 < nv implies #[trigger] bb[24 + nv * fv + i2] == 0
                || bb[24 + nv * fv + i2] == 1 by {
                assert(y_train@[i2] as int == bb[24 + n as int * fi + i2]);
            }
            assert(valid_model_bytes(bb));
        }
        let m = ImageClassifier { target_width: w, target_height: h, x_train, y_train, k: (
        k64 as usize) };
        proof {
            assert(m.wf());
            assert(loaded_from(m, bytes@));
        }
        Ok(m)
    }
}

/// Law: the saved bytes of a well-formed model form a valid persisted layout,
/// so loading them always succeeds.
#[verifier::rlimit(60)]
pub proof fn lemma_save_valid(m: ImageClassifier)
    requires
        m.wf(),
    ensures
        valid_model_bytes(spec_save(m)),
{
    broadcast use vstd::std_specs::vec::axiom_spec_len;

    let b = spec_save(m);
    let n = m.x_train@.len() as int;
    let f = m.num_features();
    assert(vstd::std_specs::vec::spec_vec_len(&m.x_train) == m.x_train@.len());
    assert(vstd::std_specs::vec::spec_vec_len(&m.y_train) == m.y_train@.len());
    lemma_rows_bytes_len(m.rows(), f);
    lemma_labels_bytes_len(m.y_train@);
    lemma_le32_roundtrip(m.target_width);
    lemma_le32_roundtrip(m.target_height);
    lemma_le64_roundtrip(m.k as u64);
    lemma_le64_roundtrip(m.x_train@.len() as u64);
    assert(b.subrange(0, 4) =~= le32(m.target_width));
    assert(b.subrange(4, 8) =~= le32(m.target_height));
    assert(b.subrange(8, 16) =~= le64(m.k as u64));
    assert(b.subrange(16, 24) =~= le64(m.x_train@.len() as u64));
    assert(b.len() == 24 + n * f + n);
    assert forall|i: int| 0 <= i < n implies #[trigger] b[24 + n * f + i] == 0 || b[24 + n * f
        + i] == 1 by {
        lemma_labels_bytes_index(m.y_train@, i);
        assert(b[24 + n * f + i] == labels_bytes(m.y_train@)[i]);
    }
}

/// Law: loading the saved bytes of any well-formed model reproduces
/// `target_width`, `target_height`, `k`, and every (vector, label) pair
/// exactly.
#[verifier::rlimit(60)]
pub proof fn lemma_save_load_roundtrip(m: ImageClassifier, m2: ImageClassifier)
    requires
        m.wf(),
        loaded_from(m2, spec_save(m)),
    ensures
        m2.target_width == m.target_width,
        m2.target_height == m.target_height,
        m2.k == m.k,
        m2.num_samples() == m.num_samples(),
        m2.rows() =~= m.rows(),
        m2.y_train@ =~= m.y_train@,
{
    broadcast use vstd::std_specs::vec::axiom_spec_len;

    let b = spec_save(m);
    let n = m.x_train@.len() as int;
    let f = m.num_features();
    assert(vstd::std_specs::vec::spec_vec_len(&m.x_train) == m.x_train@.len());
    lemma_rows_bytes_len(m.rows(), f);
    lemma_labels_bytes_len(m.y_train@);
    lemma_le32_roundtrip(m.target_width);
    lemma_le32_roundtrip(m.target_height);
    lemma_le64_roundtrip(m.k as u64);
    lemma_le64_roundtrip(m.x_train@.len() as u64);
    assert(b.subrange(0, 4) =~= le32(m.target_width));
    assert(b.subrange(4, 8) =~= le32(m.target_height));
    assert(b.subrange(8, 16) =~= le64(m.k as u64));
    assert(b.subrange(16, 24) =~= le64(m.x_train@.len() as u64));
    assert(m2.target_width == m.target_width);
    assert(m2.target_height == m.target_height);
    assert(m2.num_features() == f);
    assert(m2.k == m.k);
    assert(m2.num_samples() == n);
    assert forall|i: int| 0 <= i < n implies m2.rows()[i] =~= m.rows()[i] by {
        assert forall|j: int| 0 <= j < f implies m2.rows()[i][j] == m.rows()[i][j] by {
            lemma_rows_bytes_index(m.rows(), f, i, j);
            assert((i + 1) * f <= n * f && i * f + j < (i + 1) * f) by (nonlinear_arith)
                requires
                    i + 1 <= n,
                    0 <= j < f,
            ;
            assert(b[24 + i * f + j] == rows_bytes(m.rows())[i * f + j]);
        }
    }
    assert(m2.rows() =~= m.rows());
    assert forall|i: int| 0 <= i < n implies m2.y_train@[i] == m.y_train@[i] by {
        lemma_labels_bytes_index(m.y_train@, i);
        assert(b[24 + n * f + i] == labels_bytes(m.y_train@)[i]);
    }
}

} // verus!
