//! The handwritten digits: two archives, one of images and one of labels, and
//! where they are looked for.

use vstd::prelude::*;
use vstd::slice::*;
use vstd::string::*;

use crate::data::idx::{
    decoded, decoded_unpacked, gunzipped, is_gzip, outcome, read_idx, IdxArray, IdxError, IdxFailure,
};
use crate::data::Dataset;
use crate::index::offset;
use crate::scalar::Scalar;
use crate::tensor::{copy_of, Array, Tensor};
use crate::text::{decimal, decimal_text, list, list_text};

verus! {

/// The directory below the home directory that archives are kept in.
pub const CACHE_DIRECTORY: &'static str = ".dezero";

/// The mirror that serves the archives.
pub const MNIST_URL_BASE: &'static str = "https://ossci-datasets.s3.amazonaws.com/mnist/";

/// The largest value of a pixel.
pub const PIXEL_MAX: usize = 255;

/// Why the digits could not be loaded.
#[derive(Debug, Clone, PartialEq, Eq)]
pub enum MnistError {
    /// A file was there but could not be read.
    Io { path: String, source: String },
    /// A file was read but is not the archive it should be.
    Idx { path: String, source: IdxError },
    /// The file is not there; `url` is where it can be had.
    Missing { path: String, url: String },
    /// There is no home directory.
    NoHomeDirectory,
    /// The image archive is not a stack of two-dimensional images.
    ImageShape { shape: Vec<usize> },
    /// The label archive is not a flat list of labels.
    LabelShape { shape: Vec<usize> },
    /// The two archives describe different numbers of examples.
    CountMismatch { images: usize, labels: usize },
}

/// The mathematical error: an [`MnistError`] with its texts taken by their views.
pub ghost enum MnistFailure {
    Io { path: Seq<char>, source: Seq<char> },
    Idx { path: Seq<char>, source: IdxFailure },
    Missing { path: Seq<char>, url: Seq<char> },
    NoHomeDirectory,
    ImageShape { shape: Seq<usize> },
    LabelShape { shape: Seq<usize> },
    CountMismatch { images: usize, labels: usize },
}

impl View for MnistError {
    type V = MnistFailure;

    open spec fn view(&self) -> MnistFailure {
        match *self {
            MnistError::Io { path, source } => MnistFailure::Io { path: path@, source: source@ },
            MnistError::Idx { path, source } => MnistFailure::Idx { path: path@, source: source@ },
            MnistError::Missing { path, url } => MnistFailure::Missing { path: path@, url: url@ },
            MnistError::NoHomeDirectory => MnistFailure::NoHomeDirectory,
            MnistError::ImageShape { shape } => MnistFailure::ImageShape { shape: shape@ },
            MnistError::LabelShape { shape } => MnistFailure::LabelShape { shape: shape@ },
            MnistError::CountMismatch { images, labels } => MnistFailure::CountMismatch {
                images,
                labels,
            },
        }
    }
}

impl MnistFailure {
    /// What the error says to a reader.
    pub open spec fn text(self) -> Seq<char> {
        match self {
            MnistFailure::Io { path, source } => "MNIST: cannot read "@ + path + ": "@ + source,
            MnistFailure::Idx { path, source } => "MNIST: "@ + path + " is unreadable: "@
                + source.text(),
            MnistFailure::Missing { path, url } => "MNIST: "@ + path
                + " is not in the cache. This library does not download; fetch "@ + url
                + " and save it there."@,
            MnistFailure::NoHomeDirectory =>
                "MNIST: neither HOME nor USERPROFILE is set, so the ~/.dezero cache has no location; pass a directory to Mnist::from_cache_dir instead"@,
            MnistFailure::ImageShape { shape } =>
                "MNIST: the image archive should be [count, rows, columns] but is "@ + list_text(
                shape,
            ),
            MnistFailure::LabelShape { shape } =>
                "MNIST: the label archive should be [count] but is "@ + list_text(shape),
            MnistFailure::CountMismatch { images, labels } => "MNIST: "@ + decimal_text(
                images as int,
            ) + " images but "@ + decimal_text(labels as int) + " labels"@,
        }
    }

    /// What the error says of its own cause, where it has one.
    pub open spec fn cause(self) -> Option<Seq<char>> {
        match self {
            MnistFailure::Io { source, .. } => Some(source),
            MnistFailure::Idx { source, .. } => Some(source.text()),
            _ => None,
        }
    }
}

impl MnistError {
    /// What the error says to a reader.
    #[must_use]
    pub fn to_string(&self) -> (r: String)
        ensures
            r@ == self@.text(),
    {
        match self {
            MnistError::Io { path, source } => {
                let mut s: String = "MNIST: cannot read ".to_owned();
                s.append(path.as_str());
                s.append(": ");
                s.append(source.as_str());
                s
            },
            MnistError::Idx { path, source } => {
                let mut s: String = "MNIST: ".to_owned();
                s.append(path.as_str());
                s.append(" is unreadable: ");
                s.append(source.to_string().as_str());
                s
            },
            MnistError::Missing { path, url } => {
                let mut s: String = "MNIST: ".to_owned();
                s.append(path.as_str());
                s.append(" is not in the cache. This library does not download; fetch ");
                s.append(url.as_str());
                s.append(" and save it there.");
                s
            },
            MnistError::NoHomeDirectory => {
                "MNIST: neither HOME nor USERPROFILE is set, so the ~/.dezero cache has no location; pass a directory to Mnist::from_cache_dir instead".to_owned()
            },
            MnistError::ImageShape { shape } => {
                let mut s: String =
                    "MNIST: the image archive should be [count, rows, columns] but is ".to_owned();
                s.append(list(shape.as_slice()).as_str());
                s
            },
            MnistError::LabelShape { shape } => {
                let mut s: String =
                    "MNIST: the label archive should be [count] but is ".to_owned();
                s.append(list(shape.as_slice()).as_str());
                s
            },
            MnistError::CountMismatch { images, labels } => {
                let mut s: String = "MNIST: ".to_owned();
                s.append(decimal(*images).as_str());
                s.append(" images but ");
                s.append(decimal(*labels).as_str());
                s.append(" labels");
                s
            },
        }
    }

    /// What the error says of its own cause, where it has one.
    #[must_use]
    pub fn source(&self) -> (r: Option<String>)
        ensures
            r is Some <==> self@.cause() is Some,
            r matches Some(s) ==> s@ == self@.cause()->0,
    {
        match self {
            MnistError::Io { source, .. } => Some(source.as_str().to_owned()),
            MnistError::Idx { source, .. } => Some(source.to_string()),
            _ => None,
        }
    }
}

/// The digits.
#[derive(Debug, Clone, PartialEq, Eq)]
pub struct Mnist {
    images: Vec<u8>,
    labels: Vec<u8>,
    count: usize,
    rows: usize,
    columns: usize,
}

/// The mathematical set of digits: the images as one `[count, rows, columns]`
/// array, and a label for each.
#[verifier::ext_equal]
pub ghost struct Digits {
    pub images: Array<u8>,
    pub labels: Seq<u8>,
}

impl Digits {
    /// There is one label for every image.
    pub open spec fn wf(self) -> bool {
        &&& self.images.wf()
        &&& self.images.shape.len() == 3
        &&& self.images.shape[0] == self.labels.len()
    }

    /// The number of examples.
    pub open spec fn count(self) -> nat {
        self.labels.len()
    }

    /// The number of pixels of an image.
    pub open spec fn pixels(self) -> int {
        self.images.shape[1] * self.images.shape[2]
    }

    /// The bytes of one image.
    pub open spec fn image(self, i: int) -> Seq<u8> {
        self.images.data.subrange(i * self.pixels(), i * self.pixels() + self.pixels())
    }

    /// One image with its values unchanged, behind a single colour channel.
    pub open spec fn raw<T: Scalar>(self, i: int) -> Array<T> {
        Array {
            shape: seq![1usize, self.images.shape[1], self.images.shape[2]],
            data: Seq::new(
                self.image(i).len(),
                |k: int| T::count_spec(self.image(i)[k] as usize),
            ),
        }
    }

    /// One image flattened, its values scaled by the largest.
    pub open spec fn flattened<T: Scalar>(self, i: int) -> Array<T> {
        Array {
            shape: seq![self.pixels() as usize],
            data: Seq::new(
                self.image(i).len(),
                |k: int|
                    T::count_spec(self.image(i)[k] as usize).over(T::count_spec(PIXEL_MAX)),
            ),
        }
    }
}

impl View for Mnist {
    type V = Digits;

    closed spec fn view(&self) -> Digits {
        Digits {
            images: Array {
                shape: seq![self.count, self.rows, self.columns],
                data: self.images@,
            },
            labels: self.labels@,
        }
    }
}

/// The outcome of loading, taken by its view.
pub open spec fn loading(r: Result<Mnist, MnistError>) -> Result<Digits, MnistFailure> {
    match r {
        Ok(m) => Ok(m@),
        Err(e) => Err(e@),
    }
}

/// What two decoded archives make.
pub open spec fn paired(images: Array<u8>, labels: Array<u8>) -> Result<Digits, MnistFailure> {
    if images.shape.len() != 3 {
        Err(MnistFailure::ImageShape { shape: images.shape })
    } else if labels.shape.len() != 1 {
        Err(MnistFailure::LabelShape { shape: labels.shape })
    } else if images.shape[0] != labels.shape[0] {
        Err(MnistFailure::CountMismatch { images: images.shape[0], labels: labels.shape[0] })
    } else {
        Ok(Digits { images, labels: labels.data })
    }
}

/// What two archives make once each is decoded or refused; the images are looked
/// at first.
pub open spec fn assembled(
    image_path: Seq<char>,
    images: Result<Array<u8>, IdxFailure>,
    label_path: Seq<char>,
    labels: Result<Array<u8>, IdxFailure>,
) -> Result<Digits, MnistFailure> {
    match images {
        Err(source) => Err(MnistFailure::Idx { path: image_path, source }),
        Ok(i) => match labels {
            Err(source) => Err(MnistFailure::Idx { path: label_path, source }),
            Ok(l) => paired(i, l),
        },
    }
}

/// What reading an archive gives.
pub open spec fn archived(bytes: Seq<u8>) -> Result<Array<u8>, IdxFailure> {
    if is_gzip(bytes) {
        decoded_unpacked(gunzipped(bytes))
    } else {
        decoded(bytes)
    }
}

/// What came of reading a file.
pub enum ReadError {
    /// There is no such file.
    NotFound,
    /// The file could not be read; the system says why.
    Other(String),
}

/// A file that was to be read: its path, the last part of the path, and what
/// came of it.
pub struct ReadFile {
    pub path: String,
    pub name: String,
    pub contents: Result<Vec<u8>, ReadError>,
}

/// The bytes of a file, or the error that its absence or unreadability is.
pub open spec fn read_outcome(file: ReadFile) -> Result<Seq<u8>, MnistFailure> {
    match file.contents {
        Ok(bytes) => Ok(bytes@),
        Err(ReadError::NotFound) => Err(
            MnistFailure::Missing { path: file.path@, url: MNIST_URL_BASE@ + file.name@ },
        ),
        Err(ReadError::Other(message)) => Err(
            MnistFailure::Io { path: file.path@, source: message@ },
        ),
    }
}

/// Names the archive `name` on the mirror.
fn url_of(name: &str) -> (r: String)
    ensures
        r@ == MNIST_URL_BASE@ + name@,
{
    let mut s: String = MNIST_URL_BASE.to_owned();
    s.append(name);
    s
}

/// The error that an unread file is.
fn read_failure(path: &str, name: &str, error: &ReadError) -> (r: MnistError)
    ensures
        r@ == match *error {
            ReadError::NotFound => MnistFailure::Missing {
                path: path@,
                url: MNIST_URL_BASE@ + name@,
            },
            ReadError::Other(message) => MnistFailure::Io { path: path@, source: message@ },
        },
{
    match error {
        ReadError::NotFound => MnistError::Missing { path: path.to_owned(), url: url_of(name) },
        ReadError::Other(message) => MnistError::Io {
            path: path.to_owned(),
            source: message.as_str().to_owned(),
        },
    }
}

/// Decodes an archive, laying an error at the door of `path`.
fn decode_file(path: &str, bytes: &[u8]) -> (r: Result<IdxArray, MnistError>)
    ensures
        match archived(bytes@) {
            Ok(a) => r matches Ok(x) && x@ == a && a.wf(),
            Err(source) => r matches Err(e) && e@ == (MnistFailure::Idx { path: path@, source }),
        },
{
    match read_idx(bytes) {
        Ok(a) => Ok(a),
        Err(source) => Err(MnistError::Idx { path: path.to_owned(), source }),
    }
}

impl Mnist {
    /// Builds the digits from two decoded archives.
    pub fn from_idx(images: &IdxArray, labels: &IdxArray) -> (r: Result<Mnist, MnistError>)
        requires
            images@.wf(),
            labels@.wf(),
        ensures
            loading(r) == paired(images@, labels@),
            r matches Ok(m) ==> m@.wf(),
    {
        let shape: &[usize] = images.shape();
        if shape.len() != 3 {
            return Err(MnistError::ImageShape { shape: copy_of(shape) });
        }
        let label_shape: &[usize] = labels.shape();
        if label_shape.len() != 1 {
            return Err(MnistError::LabelShape { shape: copy_of(label_shape) });
        }
        let count: usize = shape[0];
        if count != label_shape[0] {
            return Err(MnistError::CountMismatch { images: count, labels: label_shape[0] });
        }
        let m = Mnist {
            images: slice_to_vec(images.data()),
            labels: slice_to_vec(labels.data()),
            count,
            rows: shape[1],
            columns: shape[2],
        };
        proof {
            assert(m@.images.shape =~= images@.shape);
            assert(m@.images.data =~= images@.data);
            assert(m@.labels =~= labels@.data);
            assert(labels@.shape =~= seq![count]);
            crate::utils::array::lemma_volume1(count);
        }
        Ok(m)
    }

    /// Builds the digits from two raw archives, gzipped or not.
    pub fn from_bytes(images: &[u8], labels: &[u8]) -> (r: Result<Mnist, MnistError>)
        ensures
            loading(r) == assembled(
                "<image bytes>"@,
                archived(images@),
                "<label bytes>"@,
                archived(labels@),
            ),
            r matches Ok(m) ==> m@.wf(),
    {
        match decode_file("<image bytes>", images) {
            Err(e) => Err(e),
            Ok(i) => match decode_file("<label bytes>", labels) {
                Err(e) => Err(e),
                Ok(l) => Mnist::from_idx(&i, &l),
            },
        }
    }

    /// Builds the digits from two files, gzipped or not. A file that could not
    /// be read is reported before anything is decoded, the images first.
    pub fn from_files(images: &ReadFile, labels: &ReadFile) -> (r: Result<Mnist, MnistError>)
        ensures
            loading(r) == match read_outcome(*images) {
                Err(e) => Err(e),
                Ok(i) => match read_outcome(*labels) {
                    Err(e) => Err(e),
                    Ok(l) => assembled(images.path@, archived(i), labels.path@, archived(l)),
                },
            },
            r matches Ok(m) ==> m@.wf(),
    {
        match &images.contents {
            Err(error) => Err(read_failure(images.path.as_str(), images.name.as_str(), error)),
            Ok(i) => match &labels.contents {
                Err(error) => Err(read_failure(labels.path.as_str(), labels.name.as_str(), error)),
                Ok(l) => match decode_file(images.path.as_str(), i.as_slice()) {
                    Err(e) => Err(e),
                    Ok(i) => match decode_file(labels.path.as_str(), l.as_slice()) {
                        Err(e) => Err(e),
                        Ok(l) => Mnist::from_idx(&i, &l),
                    },
                },
            },
        }
    }

    /// The number of examples.
    #[must_use]
    pub fn count(&self) -> (r: usize)
        ensures
            r == self@.images.shape[0],
    {
        self.count
    }

    /// Pixel rows of an image.
    #[must_use]
    pub fn rows(&self) -> (r: usize)
        ensures
            r == self@.images.shape[1],
    {
        self.rows
    }

    /// Pixel columns of an image.
    #[must_use]
    pub fn columns(&self) -> (r: usize)
        ensures
            r == self@.images.shape[2],
    {
        self.columns
    }

    /// Pixels of an image, and so the width of the flattened input.
    #[must_use]
    pub fn pixels(&self) -> (r: usize)
        requires
            self@.pixels() <= usize::MAX,
        ensures
            r == self@.pixels(),
    {
        self.rows * self.columns
    }

    proof fn lemma_image_range(&self, i: int)
        requires
            self@.wf(),
            0 <= i < self@.count(),
        ensures
            0 <= i * self@.pixels(),
            i * self@.pixels() + self@.pixels() <= self.images@.len(),
            0 <= self@.pixels() <= usize::MAX,
    {
        let (c, h, w) = (self.count, self.rows, self.columns);
        let shape = self@.images.shape;
        assert(shape =~= seq![c] + seq![h, w]);
        crate::data::lemma_leading_axis(c, seq![h, w]);
        crate::utils::conv::lemma_volume2(h, w);
        let p = self@.pixels();
        assert(p == h * w);
        assert(0 <= h * w) by (nonlinear_arith);
        assert(0 <= i * p && i * p + p <= c * p && p <= c * p) by (nonlinear_arith)
            requires
                0 <= i < c,
                0 <= p,
        ;
    }

    /// The bytes of one image.
    pub fn pixel_slice(&self, index: usize) -> (r: &[u8])
        requires
            self@.wf(),
            index < self@.count(),
        ensures
            r@ == self@.image(index as int),
            r@.len() == self@.pixels(),
    {
        proof {
            self.lemma_image_range(index as int);
        }
        let pixels: usize = self.pixels();
        let start: usize = index * pixels;
        slice_subrange(self.images.as_slice(), start, start + pixels)
    }

    /// One image as `[1, rows, columns]` with its values unchanged.
    #[must_use]
    pub fn raw_image<T: Scalar>(&self, index: usize) -> (r: Tensor<T>)
        requires
            self@.wf(),
            index < self@.count(),
        ensures
            r@ == self@.raw::<T>(index as int),
            r.wf(),
    {
        let bytes: &[u8] = self.pixel_slice(index);
        let n: usize = bytes.len();
        let mut data: Vec<T> = Vec::new();
        let mut k: usize = 0;
        while k < n
            invariant
                n == bytes@.len(),
                k <= n,
                data@.len() == k,
                forall|j: int|
                    0 <= j < k ==> #[trigger] data@[j] == T::count_spec(bytes@[j] as usize),
            decreases n - k,
        {
            data.push(T::from_count(bytes[k] as usize));
            k = k + 1;
        }
        let shape: Vec<usize> = vec![1, self.rows, self.columns];
        let r = Tensor { shape, data };
        proof {
            self.lemma_image_range(index as int);
            let (h, w) = (self.rows, self.columns);
            assert(r@.shape =~= seq![1usize, h, w]);
            assert(r@.shape =~= seq![1usize] + seq![h, w]);
            crate::data::lemma_leading_axis(1, seq![h, w]);
            crate::utils::conv::lemma_volume2(h, w);
            assert(r@.data =~= self@.raw::<T>(index as int).data);
        }
        r
    }

    /// Where the two archives of a split can be had.
    #[must_use]
    pub fn urls(train: bool) -> (r: (String, String))
        ensures
            r.0@ == MNIST_URL_BASE@ + archive_names(train).0,
            r.1@ == MNIST_URL_BASE@ + archive_names(train).1,
    {
        let names = file_names(train);
        (url_of(names.0), url_of(names.1))
    }
}

impl<T: Scalar> Dataset<T> for Mnist {
    open spec fn valid(&self) -> bool {
        self@.wf()
    }

    open spec fn size(&self) -> nat {
        self@.count()
    }

    /// The image flattened and scaled into the range from nought to one.
    open spec fn yields(&self, i: int, x: Array<T>) -> bool {
        x == self@.flattened::<T>(i)
    }

    open spec fn labels(&self, i: int, t: Option<usize>) -> bool {
        t == Some(self@.labels[i] as usize)
    }

    fn len(&self) -> (r: usize) {
        self.count
    }

    fn input(&self, index: usize) -> (r: Tensor<T>) {
        let bytes: &[u8] = self.pixel_slice(index);
        let n: usize = bytes.len();
        let scale: T = T::from_count(PIXEL_MAX);
        let mut data: Vec<T> = Vec::new();
        let mut k: usize = 0;
        while k < n
            invariant
                n == bytes@.len(),
                k <= n,
                data@.len() == k,
                scale == T::count_spec(PIXEL_MAX),
                forall|j: int|
                    0 <= j < k ==> #[trigger] data@[j] == T::count_spec(bytes@[j] as usize).over(
                        T::count_spec(PIXEL_MAX),
                    ),
            decreases n - k,
        {
            data.push(T::from_count(bytes[k] as usize).div(scale));
            k = k + 1;
        }
        let shape: Vec<usize> = vec![n];
        let r = Tensor { shape, data };
        proof {
            assert(r@.shape =~= seq![n]);
            crate::utils::array::lemma_volume1(n);
            assert(r@.data =~= self@.flattened::<T>(index as int).data);
        }
        r
    }

    fn label(&self, index: usize) -> (r: Option<usize>) {
        Some(self.labels[index] as usize)
    }
}

/// The names of the two archives of a split.
pub open spec fn archive_names(train: bool) -> (Seq<char>, Seq<char>) {
    if train {
        ("train-images-idx3-ubyte.gz"@, "train-labels-idx1-ubyte.gz"@)
    } else {
        ("t10k-images-idx3-ubyte.gz"@, "t10k-labels-idx1-ubyte.gz"@)
    }
}

/// The names of the two archives of a split.
pub fn file_names(train: bool) -> (r: (&'static str, &'static str))
    ensures
        (r.0@, r.1@) == archive_names(train),
{
    if train {
        ("train-images-idx3-ubyte.gz", "train-labels-idx1-ubyte.gz")
    } else {
        ("t10k-images-idx3-ubyte.gz", "t10k-labels-idx1-ubyte.gz")
    }
}

/// The same names for archives already unpacked: without the extension.
pub fn plain_names(train: bool) -> (r: (&'static str, &'static str))
    ensures
        r.0@ + ".gz"@ == archive_names(train).0,
        r.1@ + ".gz"@ == archive_names(train).1,
{
    proof {
        reveal_strlit(".gz");
        reveal_strlit("train-images-idx3-ubyte.gz");
        reveal_strlit("train-labels-idx1-ubyte.gz");
        reveal_strlit("t10k-images-idx3-ubyte.gz");
        reveal_strlit("t10k-labels-idx1-ubyte.gz");
        reveal_strlit("train-images-idx3-ubyte");
        reveal_strlit("train-labels-idx1-ubyte");
        reveal_strlit("t10k-images-idx3-ubyte");
        reveal_strlit("t10k-labels-idx1-ubyte");
    }
    if train {
        ("train-images-idx3-ubyte", "train-labels-idx1-ubyte")
    } else {
        ("t10k-images-idx3-ubyte", "t10k-labels-idx1-ubyte")
    }
}

/// Where an archive may lie, compressed or plain, and which of the two is there.
#[derive(Debug, Clone, PartialEq, Eq)]
pub struct Candidates {
    pub compressed: String,
    pub compressed_exists: bool,
    pub plain: String,
    pub plain_exists: bool,
}

impl Candidates {
    /// The path to take: the compressed file if it exists, else the plain one, else none,
    /// and the archive called `name` is what to fetch.
    pub open spec fn located(self, name: Seq<char>) -> Result<Seq<char>, MnistFailure> {
        if self.compressed_exists {
            Ok(self.compressed@)
        } else if self.plain_exists {
            Ok(self.plain@)
        } else {
            Err(MnistFailure::Missing { path: self.compressed@, url: MNIST_URL_BASE@ + name })
        }
    }
}

/// The outcome of looking for an archive, taken by its view.
pub open spec fn location(r: Result<String, MnistError>) -> Result<Seq<char>, MnistFailure> {
    match r {
        Ok(path) => Ok(path@),
        Err(e) => Err(e@),
    }
}

/// Where an archive is: the compressed file if it exists, else the plain one,
/// else it is missing, and `name` is what to fetch.
pub fn locate(at: &Candidates, name: &str) -> (r: Result<String, MnistError>)
    ensures
        location(r) == at.located(name@),
{
    if at.compressed_exists {
        Ok(at.compressed.clone())
    } else if at.plain_exists {
        Ok(at.plain.clone())
    } else {
        Err(MnistError::Missing { path: at.compressed.clone(), url: url_of(name) })
    }
}

/// Where the images and the labels of a split are, or the first archive that is missing:
/// the images are looked for first.
pub fn locate_split(train: bool, images: &Candidates, labels: &Candidates) -> (r: Result<
    (String, String),
    MnistError,
>)
    ensures
        match (
            images.located(archive_names(train).0),
            labels.located(archive_names(train).1),
        ) {
            (Err(e), _) => r matches Err(f) && f@ == e,
            (Ok(_), Err(e)) => r matches Err(f) && f@ == e,
            (Ok(a), Ok(b)) => r matches Ok(p) && p.0@ == a && p.1@ == b,
        },
{
    let (image_name, label_name) = file_names(train);
    let image_path: String = match locate(images, image_name) {
        Ok(path) => path,
        Err(e) => return Err(e),
    };
    match locate(labels, label_name) {
        Ok(label_path) => Ok((image_path, label_path)),
        Err(e) => Err(e),
    }
}

/// Whether a variable of the environment is set to something.
pub open spec fn is_set(variable: Option<String>) -> bool {
    variable matches Some(text) && text@.len() > 0
}

/// The text of a variable that is set to something.
fn set_text(variable: Option<String>) -> (r: Option<String>)
    ensures
        r == if is_set(variable) {
            variable
        } else {
            None
        },
{
    match variable {
        Some(text) => if text.as_str().unicode_len() > 0 {
            Some(text)
        } else {
            None
        },
        None => None,
    }
}

/// The home directory that the cache lies in: `home` where it is set to something, else
/// `user_profile`; none where neither is.
pub fn cache_home(home: Option<String>, user_profile: Option<String>) -> (r: Result<
    String,
    MnistError,
>)
    ensures
        is_set(home) ==> (r matches Ok(d) && Some(d) == home),
        !is_set(home) && is_set(user_profile) ==> (r matches Ok(d) && Some(d) == user_profile),
        !is_set(home) && !is_set(user_profile) ==> (r matches Err(e) && e is NoHomeDirectory),
{
    if let Some(directory) = set_text(home) {
        return Ok(directory);
    }
    match set_text(user_profile) {
        Some(directory) => Ok(directory),
        None => Err(MnistError::NoHomeDirectory),
    }
}

/// The pixel in row `r` and column `c` of image `i` is the element `[i, r, c]` of
/// the archive: an image is its own rows one after the other.
pub proof fn images_are_cut_along_the_first_axis(d: Digits, i: int, r: int, c: int)
    requires
        d.wf(),
        0 <= i < d.count(),
        0 <= r < d.images.shape[1],
        0 <= c < d.images.shape[2],
    ensures
        0 <= r * d.images.shape[2] + c < d.pixels(),
        d.image(i).len() == d.pixels(),
        d.image(i)[r * d.images.shape[2] + c] == d.images.at(seq![i, r, c]),
{
    let n = d.images.shape[0];
    let (h, w) = (d.images.shape[1], d.images.shape[2]);
    assert(d.images.shape =~= seq![n] + seq![h, w]);
    crate::data::lemma_leading_axis(n, seq![h, w]);
    crate::utils::conv::lemma_volume2(h, w);
    let p = d.pixels();
    assert(0 <= i * p && i * p + p <= n * p) by (nonlinear_arith)
        requires
            0 <= i < n,
            0 <= p,
    ;
    assert(0 <= r * w + c < h * w) by (nonlinear_arith)
        requires
            0 <= r < h,
            0 <= c < w,
    ;
    let s = d.images.shape;
    let idx = seq![i, r, c];
    reveal_with_fuel(offset, 4);
    assert(s.drop_last().drop_last() =~= seq![n]);
    assert(idx.drop_last().drop_last() =~= seq![i]);
    assert(offset(s, idx) == (i * h + r) * w + c);
    assert((i * h + r) * w + c == i * (h * w) + (r * w + c)) by (nonlinear_arith);
}

} // verus!
