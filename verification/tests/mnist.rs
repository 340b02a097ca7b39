use dezero::data::idx::IdxError;
use dezero::data::mnist::{
    cache_home, file_names, locate, locate_split, plain_names, Candidates, Mnist, MnistError,
    ReadError, ReadFile,
    CACHE_DIRECTORY,
};
use dezero::data::Dataset;
use dezero::scalar::Scalar;
use dezero::tensor::Tensor;
use flate2::write::GzEncoder;
use flate2::Compression;
use std::io::Write;

#[derive(Debug, Clone, Copy, PartialEq)]
struct Real(f64);

impl Scalar for Real {
    fn zero() -> Self {
        Real(0.0)
    }

    fn one() -> Self {
        Real(1.0)
    }

    fn from_count(n: usize) -> Self {
        Real(n as f64)
    }

    fn add(self, other: Self) -> Self {
        Real(self.0 + other.0)
    }

    fn sub(self, other: Self) -> Self {
        Real(self.0 - other.0)
    }

    fn mul(self, other: Self) -> Self {
        Real(self.0 * other.0)
    }

    fn div(self, other: Self) -> Self {
        Real(self.0 / other.0)
    }

    fn neg(self) -> Self {
        Real(-self.0)
    }

    fn gt(self, other: Self) -> bool {
        self.0 > other.0
    }
}

fn idx_file(shape: &[usize], payload: &[u8]) -> Vec<u8> {
    let mut bytes = vec![0x00, 0x00, 0x08, u8::try_from(shape.len()).expect("rank")];
    for &size in shape {
        bytes.extend_from_slice(&u32::try_from(size).expect("dimension").to_be_bytes());
    }
    bytes.extend_from_slice(payload);
    bytes
}

fn gzipped(bytes: &[u8]) -> Vec<u8> {
    let mut encoder = GzEncoder::new(Vec::new(), Compression::fast());
    encoder.write_all(bytes).expect("in-memory write");
    encoder.finish().expect("in-memory finish")
}

/// Three 2x2 "digits", with pixel values that identify their position.
fn image_archive() -> Vec<u8> {
    idx_file(&[3, 2, 2], &[0, 51, 102, 255, 10, 20, 30, 40, 1, 2, 3, 4])
}

fn label_archive() -> Vec<u8> {
    idx_file(&[3], &[7, 0, 9])
}

fn tiny() -> Mnist {
    Mnist::from_bytes(&image_archive(), &label_archive()).expect("well-formed archives")
}

fn input(set: &Mnist, index: usize) -> Tensor<Real> {
    set.input(index)
}

fn label(set: &Mnist, index: usize) -> Option<usize> {
    Dataset::<Real>::label(set, index)
}

#[test]
fn the_archives_decode_into_examples() {
    let set = tiny();
    assert_eq!(Dataset::<Real>::len(&set), 3);
    assert_eq!(set.count(), 3);
    assert_eq!(set.rows(), 2);
    assert_eq!(set.columns(), 2);
    assert_eq!(set.pixels(), 4);
    assert!(!Dataset::<Real>::is_empty(&set));
}

#[test]
fn an_input_is_flattened_and_normalised() {
    let x = input(&tiny(), 0);
    assert_eq!(x.shape(), &[4]);
    for (actual, expected) in x.data.iter().zip([0.0, 51.0 / 255.0, 102.0 / 255.0, 1.0]) {
        assert!((actual.0 - expected).abs() < 1e-15, "{actual:?} vs {expected}");
    }
    assert!(
        x.data.iter().all(|v| (0.0..=1.0).contains(&v.0)),
        "normalisation must land in [0, 1]"
    );
}

#[test]
fn every_example_gets_its_own_pixels() {
    let set = tiny();
    let scaled = |values: [f64; 4]| values.map(|v| v / 255.0);
    for (index, expected) in [
        scaled([0.0, 51.0, 102.0, 255.0]),
        scaled([10.0, 20.0, 30.0, 40.0]),
        scaled([1.0, 2.0, 3.0, 4.0]),
    ]
    .into_iter()
    .enumerate()
    {
        let actual = input(&set, index);
        for (a, e) in actual.data.iter().zip(expected) {
            assert!((a.0 - e).abs() < 1e-15, "example {index}: {a:?} vs {e}");
        }
    }
}

#[test]
fn labels_come_through_as_class_indices() {
    let set = tiny();
    assert_eq!(label(&set, 0), Some(7));
    assert_eq!(label(&set, 1), Some(0));
    assert_eq!(label(&set, 2), Some(9));
}

#[test]
fn a_raw_image_keeps_its_channel_and_its_byte_values() {
    let image: Tensor<Real> = tiny().raw_image(0);
    assert_eq!(image.shape(), &[1, 2, 2], "channel, rows, columns");
    assert_eq!(image.data[1].0, 51.0);
    assert_eq!(image.data[3].0, 255.0);
}

#[test]
fn a_gzipped_archive_gives_the_same_dataset() {
    let compressed = Mnist::from_bytes(&gzipped(&image_archive()), &gzipped(&label_archive()))
        .expect("gzipped archives");
    assert_eq!(compressed, tiny());
}

#[test]
fn one_gzipped_and_one_plain_archive_is_fine_too() {
    let mixed =
        Mnist::from_bytes(&gzipped(&image_archive()), &label_archive()).expect("mixed archives");
    assert_eq!(mixed, tiny());
}

#[test]
fn a_two_dimensional_image_archive_is_rejected() {
    let flat = idx_file(&[3, 4], &[0; 12]);
    assert!(matches!(
        Mnist::from_bytes(&flat, &label_archive()),
        Err(MnistError::ImageShape { .. })
    ));
}

#[test]
fn a_two_dimensional_label_archive_is_rejected() {
    let nested = idx_file(&[3, 1], &[7, 0, 9]);
    assert!(matches!(
        Mnist::from_bytes(&image_archive(), &nested),
        Err(MnistError::LabelShape { .. })
    ));
}

#[test]
fn mismatched_counts_are_rejected() {
    let short = idx_file(&[2], &[7, 0]);
    match Mnist::from_bytes(&image_archive(), &short) {
        Err(MnistError::CountMismatch { images, labels }) => {
            assert_eq!((images, labels), (3, 2));
        }
        other => panic!("expected a count mismatch, got {other:?}"),
    }
}

#[test]
fn a_malformed_archive_reports_the_idx_error() {
    match Mnist::from_bytes(b"not an archive", &label_archive()) {
        Err(MnistError::Idx { source, .. }) => {
            assert!(matches!(source, IdxError::NotIdx { .. }));
        }
        other => panic!("expected an IDX error, got {other:?}"),
    }
}

/// A file that was read.
fn file(path: &str, name: &str, contents: Vec<u8>) -> ReadFile {
    ReadFile {
        path: path.to_owned(),
        name: name.to_owned(),
        contents: Ok(contents),
    }
}

#[test]
fn a_dataset_loads_from_two_files() {
    let images = file("dir/images.idx", "images.idx", image_archive());
    let labels = file("dir/labels.idx", "labels.idx", label_archive());
    assert_eq!(Mnist::from_files(&images, &labels).expect("loads"), tiny());
}

fn candidates(packed: &str, packed_exists: bool, plain: &str, plain_exists: bool) -> Candidates {
    Candidates {
        compressed: packed.to_owned(),
        compressed_exists: packed_exists,
        plain: plain.to_owned(),
        plain_exists,
    }
}

#[test]
fn a_split_is_missing_where_either_archive_is() {
    let here = |name: &str| candidates(name, true, "unused", false);
    let gone = |name: &str| candidates(name, false, "unused", false);
    let plain = candidates("packed", false, "unpacked", true);
    let (image_name, label_name) = file_names(true);
    let missing = |path: &str, name: &str| {
        Err(MnistError::Missing {
            path: path.to_owned(),
            url: format!("https://ossci-datasets.s3.amazonaws.com/mnist/{name}"),
        })
    };
    assert_eq!(
        locate_split(true, &here("a"), &plain),
        Ok(("a".to_owned(), "unpacked".to_owned()))
    );
    assert_eq!(locate_split(true, &gone("a"), &gone("b")), missing("a", image_name));
    assert_eq!(locate_split(true, &here("a"), &gone("b")), missing("b", label_name));
}

#[test]
fn the_cache_path_finds_the_gzipped_archives() {
    let (image_name, label_name) = file_names(true);
    let (images, labels) = locate_split(
        true,
        &candidates(image_name, true, "unused", true),
        &candidates(label_name, true, "unused", false),
    )
    .expect("there");
    assert_eq!(images, image_name);
    assert_eq!(
        Mnist::from_files(
            &file(&images, image_name, gzipped(&image_archive())),
            &file(&labels, label_name, gzipped(&label_archive())),
        )
        .expect("loads"),
        tiny()
    );
    let (test_images, _) = file_names(false);
    assert!(
        matches!(
            locate(&candidates(test_images, false, "unused", false), test_images),
            Err(MnistError::Missing { .. })
        ),
        "the test split was not primed"
    );
}

#[test]
fn the_cache_path_also_accepts_decompressed_archives() {
    let (image_name, label_name) = file_names(false);
    let (image_plain, label_plain) = plain_names(false);
    assert_eq!(image_plain, image_name.trim_end_matches(".gz"));
    assert_eq!(label_plain, label_name.trim_end_matches(".gz"));
    let (images, labels) = locate_split(
        false,
        &candidates(image_name, false, image_plain, true),
        &candidates(label_name, false, label_plain, true),
    )
    .expect("there");
    assert_eq!((images.as_str(), labels.as_str()), (image_plain, label_plain));
    assert_eq!(
        Mnist::from_files(
            &file(&images, image_plain, image_archive()),
            &file(&labels, label_plain, label_archive()),
        )
        .expect("loads"),
        tiny()
    );
}

#[test]
fn a_cache_miss_names_the_file_and_the_url() {
    let (image_name, _) = file_names(true);
    let (image_plain, _) = plain_names(true);
    let directory = "somewhere/";
    let compressed = format!("{directory}{image_name}");
    let plain = format!("{directory}{image_plain}");
    let Err(error) = locate(&candidates(&compressed, false, &plain, false), image_name) else {
        panic!("an empty cache cannot produce a dataset");
    };

    let MnistError::Missing { path, url } = &error else {
        panic!("expected a cache miss, got {error:?}");
    };
    assert!(path.ends_with(image_name), "{path}");
    assert_eq!(*url, Mnist::urls(true).0);

    let rendered = error.to_string();
    assert!(rendered.contains("does not download"), "{rendered}");
    assert!(rendered.contains("ossci-datasets"), "{rendered}");
}

#[test]
fn a_corrupt_cached_archive_reports_where_the_problem_is() {
    let (image_name, label_name) = file_names(true);
    match Mnist::from_files(
        &file(image_name, image_name, b"neither gzip nor idx".to_vec()),
        &file(label_name, label_name, gzipped(&label_archive())),
    ) {
        Err(MnistError::Idx { path, source }) => {
            assert!(path.ends_with(image_name), "{path}");
            assert!(matches!(source, IdxError::NotIdx { .. }));
        }
        other => panic!("expected an IDX error, got {other:?}"),
    }
}

#[test]
fn a_file_that_vanished_is_missing_and_another_failure_is_not() {
    let gone = ReadFile {
        path: "dir/images".to_owned(),
        name: "images".to_owned(),
        contents: Err(ReadError::NotFound),
    };
    let locked = ReadFile {
        path: "dir/labels".to_owned(),
        name: "labels".to_owned(),
        contents: Err(ReadError::Other("permission denied".to_owned())),
    };
    assert_eq!(
        Mnist::from_files(&gone, &locked),
        Err(MnistError::Missing {
            path: "dir/images".to_owned(),
            url: "https://ossci-datasets.s3.amazonaws.com/mnist/images".to_owned(),
        }),
        "the images are looked at first"
    );
    assert_eq!(
        Mnist::from_files(&file("images", "images", b"no archive".to_vec()), &locked),
        Err(MnistError::Io {
            path: "dir/labels".to_owned(),
            source: "permission denied".to_owned(),
        }),
        "both files are read before either is decoded"
    );
}

#[test]
fn the_urls_are_the_reference_mirrors_four_files() {
    let (train_images, train_labels) = Mnist::urls(true);
    let (test_images, test_labels) = Mnist::urls(false);
    for url in [&train_images, &train_labels, &test_images, &test_labels] {
        assert!(
            url.starts_with("https://ossci-datasets.s3.amazonaws.com/mnist/"),
            "{url}"
        );
    }
    assert!(train_images.ends_with("train-images-idx3-ubyte.gz"));
    assert!(train_labels.ends_with("train-labels-idx1-ubyte.gz"));
    assert!(test_images.ends_with("t10k-images-idx3-ubyte.gz"));
    assert!(test_labels.ends_with("t10k-labels-idx1-ubyte.gz"));
}

#[test]
fn the_cache_directory_is_dot_dezero_under_the_home_directory() {
    assert_eq!(CACHE_DIRECTORY, ".dezero");
    assert_eq!(
        cache_home(Some("/home/me".to_owned()), Some("C:\\me".to_owned())),
        Ok("/home/me".to_owned())
    );
    assert_eq!(
        cache_home(None, Some("C:\\me".to_owned())),
        Ok("C:\\me".to_owned())
    );
    assert_eq!(cache_home(None, None), Err(MnistError::NoHomeDirectory));
    assert_eq!(
        cache_home(Some(String::new()), Some("C:\\me".to_owned())),
        Ok("C:\\me".to_owned()),
        "a variable that is set to nothing is passed over"
    );
    assert_eq!(
        cache_home(Some(String::new()), Some(String::new())),
        Err(MnistError::NoHomeDirectory)
    );
}

#[test]
fn mnist_every_error_renders_something_a_reader_can_act_on() {
    let errors = [
        MnistError::Io {
            path: "a".to_owned(),
            source: "permission denied".to_owned(),
        },
        MnistError::Idx {
            path: "b".to_owned(),
            source: IdxError::ShapeOverflow,
        },
        MnistError::Missing {
            path: "c".to_owned(),
            url: "https://example.invalid/c".to_owned(),
        },
        MnistError::NoHomeDirectory,
        MnistError::ImageShape { shape: vec![1, 2] },
        MnistError::LabelShape { shape: vec![1, 2] },
        MnistError::CountMismatch {
            images: 3,
            labels: 2,
        },
    ];

    for error in &errors {
        assert!(error.to_string().starts_with("MNIST: "), "{error:?}");
    }
    assert!(errors[0].source().is_some(), "an io error keeps its cause");
    assert!(errors[1].source().is_some(), "an IDX error keeps its cause");
    assert!(errors[3].source().is_none());
    assert_eq!(
        errors[4].to_string(),
        "MNIST: the image archive should be [count, rows, columns] but is [1, 2]"
    );
    assert_eq!(errors[6].to_string(), "MNIST: 3 images but 2 labels");
}
