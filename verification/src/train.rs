use vstd::prelude::*;

use crate::features::{decodes, gray_resized, preprocess_image};
use crate::model::ImageClassifier;

verus! {

/// Failure of a training run.
#[derive(Debug, PartialEq, Eq, Structural)]
pub enum TrainError {
    /// Some input image could not be decoded.
    ImageProcessing,
    /// The trained model could not be persisted.
    ModelSave,
}

/// Case-insensitive match of one extension character against its lowercase
/// and uppercase forms.
pub open spec fn matches_ci(c: char, lower: char, upper: char) -> bool {
    c == lower || c == upper
}

/// The extension (the characters after the last dot) is one of the supported
/// image formats jpg, jpeg or png, in any letter case.
pub open spec fn supported_ext(e: Seq<char>) -> bool {
    ||| e.len() == 3 && matches_ci(e[0], 'j', 'J') && matches_ci(e[1], 'p', 'P') && matches_ci(
        e[2],
        'g',
        'G',
    )
    ||| e.len() == 4 && matches_ci(e[0], 'j', 'J') && matches_ci(e[1], 'p', 'P') && matches_ci(
        e[2],
        'e',
        'E',
    ) && matches_ci(e[3], 'g', 'G')
    ||| e.len() == 3 && matches_ci(e[0], 'p', 'P') && matches_ci(e[1], 'n', 'N') && matches_ci(
        e[2],
        'g',
        'G',
    )
}

/// A file name carries a supported image extension: it has a last dot with at
/// least one character before it (a leading dot marks a hidden file, not an
/// extension), and what follows the dot is jpg, jpeg or png in any letter
/// case.
pub open spec fn spec_is_supported(name: Seq<char>) -> bool {
    exists|i: int|
        1 <= i < name.len() && #[trigger] name[i] == '.' && (forall|j: int|
            i < j < name.len() ==> name[j] != '.') && supported_ext(
            name.subrange(i + 1, name.len() as int),
        )
}

/// Decides whether a file name carries a supported image extension
/// (jpg, jpeg or png, case-insensitive); a directory scan encodes exactly the
/// files this accepts and skips the rest silently.
#[verifier::loop_isolation(false)]
pub fn is_supported_image_format(path: &str) -> (r: bool)
    ensures
        r == spec_is_supported(path@),
{
    let n = path.unicode_len();
    let mut i: usize = 0;
    let mut dot: usize = n;
    while i < n
        invariant
            i <= n,
            dot == n || (dot < i && path@[dot as int] == '.' && forall|j: int|
                dot < j < i ==> path@[j] != '.'),
            dot == n ==> forall|j: int| 0 <= j < i ==> path@[j] != '.',
        decreases n - i,
    {
        let c = path.get_char(i);
        if c == '.' {
            dot = i;
        }
        i = i + 1;
    }
    if dot == n {
        proof {
            assert(!spec_is_supported(path@));
        }
        return false;
    }
    proof {
        assert forall|i2: int|
            0 <= i2 < n && path@[i2] == '.' && (forall|j: int|
                i2 < j < n ==> path@[j] != '.') implies i2 == dot by {
            if i2 < dot {
                assert(path@[dot as int] == '.');
            }
        }
    }
    if dot == 0 {
        proof {
            assert(!spec_is_supported(path@));
        }
        return false;
    }
    let ghost ext = path@.subrange(dot as int + 1, n as int);
    let el = n - dot - 1;
    let r: bool = if el == 3 {
        let c0 = path.get_char(dot + 1);
        let c1 = path.get_char(dot + 2);
        let c2 = path.get_char(dot + 3);
        ((c0 == 'j' || c0 == 'J') && (c1 == 'p' || c1 == 'P') && (c2 == 'g' || c2 == 'G')) || ((c0
            == 'p' || c0 == 'P') && (c1 == 'n' || c1 == 'N') && (c2 == 'g' || c2 == 'G'))
    } else if el == 4 {
        let c0 = path.get_char(dot + 1);
        let c1 = path.get_char(dot + 2);
        let c2 = path.get_char(dot + 3);
        let c3 = path.get_char(dot + 4);
        (c0 == 'j' || c0 == 'J') && (c1 == 'p' || c1 == 'P') && (c2 == 'e' || c2 == 'E') && (c3
            == 'g' || c3 == 'G')
    } else {
        false
    };
    proof {
        assert(ext.len() == el);
        assert(r == supported_ext(ext));
        if r {
            assert(spec_is_supported(path@));
        }
    }
    r
}

/// The views of a list of file names.
pub open spec fn names_view(names: Seq<String>) -> Seq<Seq<char>> {
    Seq::new(names.len(), |i: int| names[i]@)
}

/// The file names with a supported image extension, kept in order.
pub open spec fn keep_supported(names: Seq<Seq<char>>) -> Seq<Seq<char>>
    decreases names.len(),
{
    if names.len() == 0 {
        Seq::empty()
    } else if spec_is_supported(names.last()) {
        keep_supported(names.drop_last()).push(names.last())
    } else {
        keep_supported(names.drop_last())
    }
}

/// Keeps exactly the file names a training scan encodes: those with a
/// supported image extension, in listing order.
#[verifier::loop_isolation(false)]
pub fn filter_supported(names: &Vec<String>) -> (r: Vec<String>)
    ensures
        names_view(r@) == keep_supported(names_view(names@)),
{
    let n = names.len();
    let mut out: Vec<String> = Vec::new();
    let mut i: usize = 0;
    while i < n
        invariant
            i <= n,
            names_view(out@) =~= keep_supported(names_view(names@.subrange(0, i as int))),
        decreases n - i,
    {
        proof {
            let pre = names_view(names@.subrange(0, i as int));
            let cur = names_view(names@.subrange(0, i as int + 1));
            assert(cur.drop_last() =~= pre);
            assert(cur.last() == names@[i as int]@);
        }
        let name = &names[i];
        if is_supported_image_format(name.as_str()) {
            let ghost before = out@;
            out.push(name.clone());
            proof {
                assert(names_view(out@) =~= names_view(before).push(names@[i as int]@));
            }
        }
        i = i + 1;
    }
    proof {
        assert(names@.subrange(0, n as int) =~= names@);
    }
    out
}

/// Trains a model: encodes every good image, then every bad image, at the
/// given resolution, and assembles the samples good-first with labels 1 and
/// 0; succeeds exactly when every input image decodes.
#[verifier::loop_isolation(false)]
pub fn train_model(
    good_images: &Vec<Vec<u8>>,
    bad_images: &Vec<Vec<u8>>,
    target_width: u32,
    target_height: u32,
    k: usize,
) -> (r: Result<ImageClassifier, TrainError>)
    requires
        target_width >= 1,
        target_height >= 1,
        target_width * target_height <= usize::MAX,
    ensures
        r matches Ok(m) ==> {
            &&& m.wf()
            &&& m.target_width == target_width
            &&& m.target_height == target_height
            &&& m.k == k
            &&& m.num_samples() == good_images@.len() + bad_images@.len()
            &&& forall|i: int|
                0 <= i < good_images@.len() ==> (#[trigger] m.rows()[i]) == gray_resized(
                    good_images@[i]@,
                    target_width,
                    target_height,
                ) && m.y_train@[i] == 1
            &&& forall|i: int|
                0 <= i < bad_images@.len() ==> (#[trigger] m.rows()[good_images@.len() + i])
                    == gray_resized(bad_images@[i]@, target_width, target_height)
                    && m.y_train@[good_images@.len() + i] == 0
        },
        r matches Err(e) ==> e == TrainError::ImageProcessing,
        r is Ok <==> (forall|i: int| 0 <= i < good_images@.len() ==> decodes(
            #[trigger] good_images@[i]@,
        )) && (forall|i: int| 0 <= i < bad_images@.len() ==> decodes(#[trigger] bad_images@[i]@)),
{
    let mut m = ImageClassifier::new(target_width, target_height, k);
    let gn = good_images.len();
    let mut i: usize = 0;
    while i < gn
        invariant
            i <= gn,
            m.wf(),
            m.target_width == target_width,
            m.target_height == target_height,
            m.k == k,
            m.num_samples() == i,
            forall|t: int|
                0 <= t < i ==> (#[trigger] m.rows()[t]) == gray_resized(
                    good_images@[t]@,
                    target_width,
                    target_height,
                ) && m.y_train@[t] == 1,
            forall|t: int| 0 <= t < i ==> decodes(#[trigger] good_images@[t]@),
        decreases gn - i,
    {
        let feats = match preprocess_image(&good_images[i], target_width, target_height) {
            Ok(f) => f,
            Err(_) => {
                return Err(TrainError::ImageProcessing);
            },
        };
        m.push_sample(feats, 1);
        i = i + 1;
    }
    let bn = bad_images.len();
    let mut b: usize = 0;
    while b < bn
        invariant
            b <= bn,
            m.wf(),
            m.target_width == target_width,
            m.target_height == target_height,
            m.k == k,
            m.num_samples() == gn + b,
            forall|t: int|
                0 <= t < gn ==> (#[trigger] m.rows()[t]) == gray_resized(
                    good_images@[t]@,
                    target_width,
                    target_height,
                ) && m.y_train@[t] == 1,
            forall|t: int|
                0 <= t < b ==> (#[trigger] m.rows()[gn + t]) == gray_resized(
                    bad_images@[t]@,
                    target_width,
                    target_height,
                ) && m.y_train@[gn + t] == 0,
            forall|t: int| 0 <= t < gn ==> decodes(#[trigger] good_images@[t]@),
            forall|t: int| 0 <= t < b ==> decodes(#[trigger] bad_images@[t]@),
        decreases bn - b,
    {
        let feats = match preprocess_image(&bad_images[b], target_width, target_height) {
            Ok(f) => f,
            Err(_) => {
                return Err(TrainError::ImageProcessing);
            },
        };
        let ghost m0 = m;
        m.push_sample(feats, 0);
        proof {
            assert(m.rows() == m0.rows().push(feats@));
            assert(m.rows()[gn + b as int] == feats@);
            assert(feats@ == gray_resized(bad_images@[b as int]@, target_width, target_height));
            assert(m.y_train@ == m0.y_train@.push(0i32));
            assert(m.y_train@[gn + b as int] == 0);
            assert forall|t: int| 0 <= t < b implies (#[trigger] m.rows()[gn + t]) == m0.rows()[gn
                + t] && m.y_train@[gn + t] == m0.y_train@[gn + t] by {
                assert(m.rows()[gn + t] == m0.rows().push(feats@)[gn + t]);
            }
            assert forall|t: int| 0 <= t < gn implies (#[trigger] m.rows()[t]) == m0.rows()[t]
                && m.y_train@[t] == m0.y_train@[t] by {
                assert(m.rows()[t] == m0.rows().push(feats@)[t]);
            }
        }
        b = b + 1;
    }
    Ok(m)
}

} // verus!
