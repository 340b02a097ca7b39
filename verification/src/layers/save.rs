//! Saving and loading weights.

use vstd::prelude::*;
use vstd::string::*;

use crate::engine::graph::{Graph, Node, Variable};
use crate::engine::parameter::Parameter;
use crate::index::{checked_volume, volume};
use crate::layers::keys_view;
use crate::scalar::Scalar;
use crate::tensor::{copy_of, same, Array, Tensor};
use crate::text::{decimal, decimal_text, list, list_text};

verus! {

/// An array as it was read: each element the number that its text stands for, or
/// that text where it stands for none.
pub struct StoredArray<T> {
    pub shape: Vec<usize>,
    pub data: Vec<Result<T, String>>,
}

/// The mathematical content of a stored array.
#[verifier::ext_equal]
pub ghost struct Stored<T> {
    pub shape: Seq<usize>,
    pub data: Seq<Result<T, Seq<char>>>,
}

/// A stored element, its text taken by its view.
pub open spec fn element_view<T>(e: Result<T, String>) -> Result<T, Seq<char>> {
    match e {
        Ok(x) => Ok(x),
        Err(text) => Err(text@),
    }
}

impl<T> View for StoredArray<T> {
    type V = Stored<T>;

    open spec fn view(&self) -> Stored<T> {
        Stored {
            shape: self.shape@,
            data: Seq::new(self.data@.len(), |i: int| element_view(self.data@[i])),
        }
    }
}

/// Why weights could not be saved or loaded.
#[derive(Debug, Clone, PartialEq, Eq)]
pub enum WeightsError {
    /// The file could not be read or written.
    Io(String),
    /// The file is not in the format.
    Format(String),
    /// The shape of an array and the number of its elements disagree.
    Corrupt { key: String, shape: Vec<usize>, len: usize },
    /// An element is no number.
    NotANumber { key: String, value: String },
    /// An array has another shape than the parameter that it would fill.
    ShapeMismatch { key: String, expected: Vec<usize>, found: Vec<usize> },
}

/// The mathematical error: a [`WeightsError`] with its texts taken by their views.
pub ghost enum WeightsFailure {
    Io(Seq<char>),
    Format(Seq<char>),
    Corrupt { key: Seq<char>, shape: Seq<usize>, len: int },
    NotANumber { key: Seq<char>, value: Seq<char> },
    ShapeMismatch { key: Seq<char>, expected: Seq<usize>, found: Seq<usize> },
}

impl View for WeightsError {
    type V = WeightsFailure;

    open spec fn view(&self) -> WeightsFailure {
        match *self {
            WeightsError::Io(message) => WeightsFailure::Io(message@),
            WeightsError::Format(message) => WeightsFailure::Format(message@),
            WeightsError::Corrupt { key, shape, len } => WeightsFailure::Corrupt {
                key: key@,
                shape: shape@,
                len: len as int,
            },
            WeightsError::NotANumber { key, value } => WeightsFailure::NotANumber {
                key: key@,
                value: value@,
            },
            WeightsError::ShapeMismatch { key, expected, found } => WeightsFailure::ShapeMismatch {
                key: key@,
                expected: expected@,
                found: found@,
            },
        }
    }
}

/// A text as the standard library's debug format writes it: in quotes, with what
/// needs it escaped.
pub uninterp spec fn quoted(text: Seq<char>) -> Seq<char>;

/// Writes a text with the debug format of `str`, which puts it in quotes and escapes
/// what needs it. What it writes depends on the text alone; which characters it
/// escapes, and how, is not said.
#[verifier::external_body]
fn quote(text: &str) -> (r: String)
    ensures
        r@ == quoted(text@),
{
    format!("{text:?}")
}

impl WeightsFailure {
    /// What the error says to a reader.
    pub open spec fn text(self) -> Seq<char> {
        match self {
            WeightsFailure::Io(message) => "weights file could not be read or written: "@ + message,
            WeightsFailure::Format(message) => "weights file is not in the expected format: "@
                + message,
            WeightsFailure::Corrupt { key, shape, len } => "weights file is corrupt: "@ + key
                + " claims shape "@ + list_text(shape) + " but holds "@ + decimal_text(len)
                + " elements"@,
            WeightsFailure::NotANumber { key, value } => "weights file is corrupt: "@ + key
                + " holds "@ + quoted(value) + ", which is not a number"@,
            WeightsFailure::ShapeMismatch { key, expected, found } =>
                "weights file does not fit this model: "@ + key + " is "@ + list_text(expected)
                + " here but "@ + list_text(found) + " in the file"@,
        }
    }
}

impl WeightsError {
    /// What the error says to a reader.
    #[must_use]
    pub fn to_string(&self) -> (r: String)
        ensures
            r@ == self@.text(),
    {
        match self {
            WeightsError::Io(message) => {
                let mut s: String = "weights file could not be read or written: ".to_owned();
                s.append(message.as_str());
                s
            },
            WeightsError::Format(message) => {
                let mut s: String = "weights file is not in the expected format: ".to_owned();
                s.append(message.as_str());
                s
            },
            WeightsError::Corrupt { key, shape, len } => {
                let mut s: String = "weights file is corrupt: ".to_owned();
                s.append(key.as_str());
                s.append(" claims shape ");
                s.append(list(shape.as_slice()).as_str());
                s.append(" but holds ");
                s.append(decimal(*len).as_str());
                s.append(" elements");
                s
            },
            WeightsError::NotANumber { key, value } => {
                let mut s: String = "weights file is corrupt: ".to_owned();
                s.append(key.as_str());
                s.append(" holds ");
                s.append(quote(value.as_str()).as_str());
                s.append(", which is not a number");
                s
            },
            WeightsError::ShapeMismatch { key, expected, found } => {
                let mut s: String = "weights file does not fit this model: ".to_owned();
                s.append(key.as_str());
                s.append(" is ");
                s.append(list(expected.as_slice()).as_str());
                s.append(" here but ");
                s.append(list(found.as_slice()).as_str());
                s.append(" in the file");
                s
            },
        }
    }
}

/// The arrays of a file with their keys.
pub open spec fn file_view<T>(s: Seq<(String, StoredArray<T>)>) -> Seq<(Seq<char>, Stored<T>)> {
    Seq::new(s.len(), |i: int| (s[i].0@, s[i].1@))
}

/// The arrays of a graph's variables.
pub open spec fn arrays_of<T, O>(g: Graph<T, O>) -> Seq<Option<Array<T>>> {
    Seq::new(g.nodes@.len(), |i: int| g.array(Variable { id: i as usize }))
}

/// Whether `after` differs from `before` only in the arrays that variables hold.
pub open spec fn only_arrays<T, O>(before: Graph<T, O>, after: Graph<T, O>) -> bool {
    &&& after.nodes@.len() == before.nodes@.len()
    &&& after.calls == before.calls
    &&& after.config == before.config
    &&& forall|i: int|
        0 <= i < before.nodes@.len() ==> #[trigger] after.nodes@[i] == (Node {
            data: after.nodes@[i].data,
            ..before.nodes@[i]
        })
}

/// The array that a file holds under a key: the first one, from place `i` on.
pub open spec fn lookup<T>(file: Seq<(Seq<char>, Stored<T>)>, key: Seq<char>, i: int) -> Option<
    Stored<T>,
>
    decreases file.len() - i,
{
    if i < 0 || i >= file.len() {
        None
    } else if file[i].0 == key {
        Some(file[i].1)
    } else {
        lookup(file, key, i + 1)
    }
}

/// The first text, from place `i` on, that stands for no number.
pub open spec fn first_text<T>(data: Seq<Result<T, Seq<char>>>, i: int) -> Option<Seq<char>>
    decreases data.len() - i,
{
    if i < 0 || i >= data.len() {
        None
    } else {
        match data[i] {
            Err(text) => Some(text),
            Ok(_) => first_text(data, i + 1),
        }
    }
}

/// What is wrong with filling a parameter of shape `current` from a stored array.
pub open spec fn complaint<T>(
    key: Seq<char>,
    current: Option<Seq<usize>>,
    entry: Stored<T>,
) -> Option<WeightsFailure> {
    if volume(entry.shape) != entry.data.len() {
        Some(
            WeightsFailure::Corrupt { key, shape: entry.shape, len: entry.data.len() as int },
        )
    } else if current is Some && current != Some(entry.shape) {
        Some(
            WeightsFailure::ShapeMismatch { key, expected: current->0, found: entry.shape },
        )
    } else {
        match first_text(entry.data, 0) {
            Some(value) => Some(WeightsFailure::NotANumber { key, value }),
            None => None,
        }
    }
}

/// The array that a stored array without a complaint stands for.
pub open spec fn restored<T>(entry: Stored<T>) -> Array<T> {
    Array { shape: entry.shape, data: Seq::new(entry.data.len(), |i: int| entry.data[i]->Ok_0) }
}

/// The shape of an array, where there is one.
pub open spec fn shape_of<T>(a: Option<Array<T>>) -> Option<Seq<usize>> {
    match a {
        Some(a) => Some(a.shape),
        None => None,
    }
}

/// What becomes of the arrays, and the first complaint, once the first `k` parameters
/// have been looked up in a file. Nothing is filled behind a complaint.
pub open spec fn loaded<T>(
    arrays: Seq<Option<Array<T>>>,
    named: Seq<(Seq<char>, Parameter)>,
    file: Seq<(Seq<char>, Stored<T>)>,
    k: int,
) -> (Seq<Option<Array<T>>>, Option<WeightsFailure>)
    decreases k,
{
    if k <= 0 {
        (arrays, None)
    } else {
        let (now, failure) = loaded(arrays, named, file, k - 1);
        let (key, p) = named[k - 1];
        let at = p.variable.id as int;
        if failure is Some {
            (now, failure)
        } else {
            match lookup(file, key, 0) {
                None => (now, None),
                Some(entry) => match complaint(key, shape_of(now[at]), entry) {
                    Some(f) => (now, Some(f)),
                    None => (now.update(at, Some(restored(entry))), None),
                },
            }
        }
    }
}

fn find<T>(file: &[(String, StoredArray<T>)], key: &String) -> (r: Option<usize>)
    ensures
        r is Some <==> lookup(file_view(file@), key@, 0) is Some,
        r matches Some(i) ==> i < file@.len() && lookup(file_view(file@), key@, 0) == Some(
            file@[i as int].1@,
        ),
{
    let n: usize = file.len();
    let ghost f = file_view(file@);
    let mut i: usize = 0;
    while i < n
        invariant
            i <= n,
            n == file@.len(),
            f == file_view(file@),
            lookup(f, key@, 0) == lookup(f, key@, i as int),
        decreases n - i,
    {
        assert(f[i as int] == (file@[i as int].0@, file@[i as int].1@));
        if file[i].0.eq(key) {
            return Some(i);
        }
        i = i + 1;
    }
    None
}

/// Reads the numbers of a stored array, or the first text that is none.
fn numbers<T: Scalar>(data: &[Result<T, String>]) -> (r: Result<Vec<T>, String>)
    ensures
        ({
            let d = Seq::new(data@.len(), |i: int| element_view(data@[i]));
            match first_text(d, 0) {
                Some(text) => r matches Err(t) && t@ == text,
                None => r matches Ok(v) && v@ == Seq::new(d.len(), |i: int| d[i]->Ok_0),
            }
        }),
{
    let n: usize = data.len();
    let ghost d = Seq::new(data@.len(), |i: int| element_view(data@[i]));
    let mut values: Vec<T> = Vec::new();
    let mut i: usize = 0;
    while i < n
        invariant
            i <= n,
            n == data@.len(),
            d == Seq::new(data@.len(), |i: int| element_view(data@[i])),
            first_text(d, 0) == first_text(d, i as int),
            values@.len() == i,
            forall|j: int| 0 <= j < i ==> #[trigger] values@[j] == d[j]->Ok_0,
        decreases n - i,
    {
        assert(d[i as int] == element_view(data@[i as int]));
        match &data[i] {
            Ok(x) => {
                values.push(*x);
            },
            Err(text) => {
                return Err(text.as_str().to_owned());
            },
        }
        i = i + 1;
    }
    assert(values@ =~= Seq::new(d.len(), |i: int| d[i]->Ok_0));
    Ok(values)
}

/// Checks a stored array against the parameter that it would fill, and reads it.
fn restore<T: Scalar>(key: &String, current: Option<&[usize]>, entry: &StoredArray<T>) -> (r: Result<
    Tensor<T>,
    WeightsError,
>)
    ensures
        ({
            let shape = match current {
                Some(s) => Some(s@),
                None => None,
            };
            match complaint(key@, shape, entry@) {
                Some(f) => r matches Err(e) && e@ == f,
                None => r matches Ok(t) && t.wf() && t@ == restored(entry@),
            }
        }),
{
    let len: usize = entry.data.len();
    let fits: bool = match checked_volume(entry.shape.as_slice()) {
        Some(v) => v == len,
        None => false,
    };
    if !fits {
        return Err(
            WeightsError::Corrupt {
                key: key.as_str().to_owned(),
                shape: copy_of(entry.shape.as_slice()),
                len,
            },
        );
    }
    if let Some(s) = current {
        if !same(s, entry.shape.as_slice()) {
            return Err(
                WeightsError::ShapeMismatch {
                    key: key.as_str().to_owned(),
                    expected: copy_of(s),
                    found: copy_of(entry.shape.as_slice()),
                },
            );
        }
    }
    match numbers(entry.data.as_slice()) {
        Err(value) => Err(WeightsError::NotANumber { key: key.as_str().to_owned(), value }),
        Ok(data) => {
            let t = Tensor { shape: copy_of(entry.shape.as_slice()), data };
            assert(t@ =~= restored(entry@));
            Ok(t)
        },
    }
}

/// Fills the parameters that a file has arrays for. A parameter that the file does
/// not have keeps what it holds, and an array that no parameter has the key of is
/// passed over.
pub fn load_weights<T: Scalar, O>(
    g: &mut Graph<T, O>,
    named: &[(String, Parameter)],
    file: &[(String, StoredArray<T>)],
) -> (r: Result<(), WeightsError>)
    requires
        old(g).wf(),
        forall|i: int| 0 <= i < named@.len() ==> old(g).has((#[trigger] named@[i]).1.variable),
    ensures
        final(g).wf(),
        only_arrays(*old(g), *final(g)),
        ({
            let l = loaded(
                arrays_of(*old(g)),
                keys_view(named@),
                file_view(file@),
                named@.len() as int,
            );
            &&& arrays_of(*final(g)) == l.0
            &&& match l.1 {
                None => r is Ok,
                Some(f) => r matches Err(e) && e@ == f,
            }
        }),
{
    let ghost before = *g;
    let ghost keyed = keys_view(named@);
    let ghost stored = file_view(file@);
    let n: usize = named.len();
    let mut i: usize = 0;
    assert(g.nodes.len() == g.nodes@.len());
    while i < n
        invariant
            i <= n,
            n == named@.len(),
            before == *old(g),
            keyed == keys_view(named@),
            stored == file_view(file@),
            before.nodes@.len() <= usize::MAX,
            forall|i: int| 0 <= i < named@.len() ==> before.has((#[trigger] named@[i]).1.variable),
            g.wf(),
            only_arrays(before, *g),
            loaded(arrays_of(before), keyed, stored, i as int) == (
                arrays_of(*g),
                None::<WeightsFailure>,
            ),
        decreases n - i,
    {
        let key: &String = &named[i].0;
        let v: Variable = named[i].1.variable;
        let ghost mid = *g;
        let ghost at = v.id as int;
        proof {
            assert(before.has(named@[i as int].1.variable));
            assert(keyed[i as int] == (key@, named@[i as int].1));
            assert(arrays_of(mid)[at] == mid.array(v));
            lemma_first_failure(
                arrays_of(before),
                keyed,
                stored,
                i + 1,
                n as int,
            );
        }
        if let Some(k) = find(file, key) {
            let outcome = match v.data(g) {
                Some(t) => restore(key, Some(t.shape.as_slice()), &file[k].1),
                None => restore(key, None, &file[k].1),
            };
            match outcome {
                Err(e) => {
                    return Err(e);
                },
                Ok(t) => {
                    let ghost a = t@;
                    v.set_data(g, t);
                    proof {
                        assert(arrays_of(*g) =~= arrays_of(mid).update(at, Some(a)));
                    }
                },
            }
        }
        i = i + 1;
    }
    Ok(())
}

/// Behind the first complaint nothing happens any more.
proof fn lemma_first_failure<T>(
    arrays: Seq<Option<Array<T>>>,
    named: Seq<(Seq<char>, Parameter)>,
    file: Seq<(Seq<char>, Stored<T>)>,
    k: int,
    n: int,
)
    requires
        0 <= k <= n,
    ensures
        loaded(arrays, named, file, k).1 is Some ==> loaded(arrays, named, file, n) == loaded(
            arrays,
            named,
            file,
            k,
        ),
    decreases n - k,
{
    if k < n {
        lemma_first_failure(arrays, named, file, k, n - 1);
    }
}

/// The first `k` parameters that hold data, with their keys and arrays.
pub open spec fn saved<T>(
    arrays: Seq<Option<Array<T>>>,
    named: Seq<(Seq<char>, Parameter)>,
    k: int,
) -> Seq<(Seq<char>, Array<T>)>
    decreases k,
{
    if k <= 0 {
        Seq::empty()
    } else {
        let (key, p) = named[k - 1];
        match arrays[p.variable.id as int] {
            Some(a) => saved(arrays, named, k - 1).push((key, a)),
            None => saved(arrays, named, k - 1),
        }
    }
}

/// Arrays with their keys, the keys and the arrays taken by their views.
pub open spec fn weights_view<T>(s: Seq<(String, Tensor<T>)>) -> Seq<(Seq<char>, Array<T>)> {
    Seq::new(s.len(), |i: int| (s[i].0@, s[i].1@))
}

/// The arrays to save: those of the parameters that hold data. A parameter that holds
/// nothing yet is passed over.
pub fn save_weights<T: Scalar, O>(g: &Graph<T, O>, named: &[(String, Parameter)]) -> (r: Vec<
    (String, Tensor<T>),
>)
    requires
        g.wf(),
        forall|i: int| 0 <= i < named@.len() ==> g.has((#[trigger] named@[i]).1.variable),
    ensures
        weights_view(r@) == saved(arrays_of(*g), keys_view(named@), named@.len() as int),
        forall|i: int| 0 <= i < r@.len() ==> (#[trigger] r@[i]).1.wf(),
{
    let ghost keyed = keys_view(named@);
    let n: usize = named.len();
    let mut out: Vec<(String, Tensor<T>)> = Vec::new();
    let mut i: usize = 0;
    assert(g.nodes.len() == g.nodes@.len());
    while i < n
        invariant
            i <= n,
            n == named@.len(),
            keyed == keys_view(named@),
            g.wf(),
            forall|i: int| 0 <= i < named@.len() ==> g.has((#[trigger] named@[i]).1.variable),
            weights_view(out@) == saved(arrays_of(*g), keyed, i as int),
            forall|i: int| 0 <= i < out@.len() ==> (#[trigger] out@[i]).1.wf(),
        decreases n - i,
    {
        let v: Variable = named[i].1.variable;
        proof {
            assert(g.has(named@[i as int].1.variable));
            assert(g.node_ok(v.id as int));
            assert(keyed[i as int] == (named@[i as int].0@, named@[i as int].1));
            assert(arrays_of(*g)[v.id as int] == g.array(v));
        }
        if let Some(t) = v.data(g) {
            let ghost was = out@;
            out.push((named[i].0.as_str().to_owned(), t.duplicate()));
            assert(weights_view(out@) =~= weights_view(was).push((keyed[i as int].0, t@)));
        }
        i = i + 1;
    }
    out
}

/// A file that holds arrays as they are.
pub open spec fn as_file<T>(s: Seq<(Seq<char>, Array<T>)>) -> Seq<(Seq<char>, Stored<T>)> {
    Seq::new(
        s.len(),
        |i: int|
            (
                s[i].0,
                Stored {
                    shape: s[i].1.shape,
                    data: Seq::new(
                        s[i].1.data.len(),
                        |j: int| Ok::<T, Seq<char>>(s[i].1.data[j]),
                    ),
                },
            ),
    )
}

/// No two parameters have the same key.
pub open spec fn keys_differ(named: Seq<(Seq<char>, Parameter)>) -> bool {
    forall|i: int, j: int|
        0 <= i < j < named.len() ==> (#[trigger] named[i]).0 != (#[trigger] named[j]).0
}

proof fn lemma_lookup_saved<T>(
    arrays: Seq<Option<Array<T>>>,
    named: Seq<(Seq<char>, Parameter)>,
    k: int,
    j: int,
)
    requires
        0 <= k <= named.len(),
        0 <= j < named.len(),
        keys_differ(named),
    ensures
        ({
            let s = saved(arrays, named, k);
            let a = arrays[named[j].1.variable.id as int];
            if j < k && a is Some {
                exists|i: int|
                    0 <= i < s.len() && #[trigger] s[i] == (named[j].0, a->0) && forall|m: int|
                        0 <= m < s.len() && m != i ==> (#[trigger] s[m]).0 != named[j].0
            } else {
                forall|m: int| 0 <= m < s.len() ==> (#[trigger] s[m]).0 != named[j].0
            }
        }),
    decreases k,
{
    if k > 0 {
        lemma_lookup_saved(arrays, named, k - 1, j);
        let s = saved(arrays, named, k);
        let was = saved(arrays, named, k - 1);
        let a = arrays[named[j].1.variable.id as int];
        let b = arrays[named[k - 1].1.variable.id as int];
        if b is Some {
            assert(s == was.push((named[k - 1].0, b->0)));
            if j == k - 1 {
                assert(s[s.len() - 1] == (named[j].0, a->0));
                assert forall|m: int| 0 <= m < s.len() && m != s.len() - 1 implies (
                #[trigger] s[m]).0 != named[j].0 by {
                    assert(was[m].0 != named[j].0);
                }
            } else {
                assert(named[k - 1].0 != named[j].0) by {
                    if j < k - 1 {
                        assert(named[j].0 != named[k - 1].0);
                    }
                }
                if j < k && a is Some {
                    let i = choose|i: int|
                        0 <= i < was.len() && #[trigger] was[i] == (named[j].0, a->0) && forall|
                            m: int,
                        |
                            0 <= m < was.len() && m != i ==> (#[trigger] was[m]).0 != named[j].0;
                    assert(s[i] == (named[j].0, a->0));
                    assert forall|m: int| 0 <= m < s.len() && m != i implies (#[trigger] s[m]).0
                        != named[j].0 by {
                        if m < was.len() {
                            assert(was[m].0 != named[j].0);
                        }
                    }
                } else {
                    assert forall|m: int| 0 <= m < s.len() implies (#[trigger] s[m]).0
                        != named[j].0 by {
                        if m < was.len() {
                            assert(was[m].0 != named[j].0);
                        }
                    }
                }
            }
        }
    }
}

proof fn lemma_lookup_at<T>(file: Seq<(Seq<char>, Stored<T>)>, key: Seq<char>, from: int, i: int)
    requires
        0 <= from <= i < file.len(),
        file[i].0 == key,
        forall|m: int| 0 <= m < file.len() && m != i ==> (#[trigger] file[m]).0 != key,
    ensures
        lookup(file, key, from) == Some(file[i].1),
    decreases i - from,
{
    if from < i {
        assert(file[from].0 != key);
        lemma_lookup_at(file, key, from + 1, i);
    }
}

proof fn lemma_lookup_none<T>(file: Seq<(Seq<char>, Stored<T>)>, key: Seq<char>, from: int)
    requires
        0 <= from <= file.len(),
        forall|m: int| 0 <= m < file.len() ==> (#[trigger] file[m]).0 != key,
    ensures
        lookup(file, key, from) is None,
    decreases file.len() - from,
{
    if from < file.len() {
        assert(file[from].0 != key);
        lemma_lookup_none(file, key, from + 1);
    }
}

proof fn lemma_no_text<T>(data: Seq<Result<T, Seq<char>>>, i: int)
    requires
        0 <= i <= data.len(),
        forall|j: int| 0 <= j < data.len() ==> #[trigger] data[j] is Ok,
    ensures
        first_text(data, i) is None,
    decreases data.len() - i,
{
    if i < data.len() {
        assert(data[i] is Ok);
        lemma_no_text(data, i + 1);
    }
}

/// Whether what was saved fits a model: the same keys in the same order, and under each
/// either nothing yet or an array of the same shape. Where the model has one parameter
/// under two keys, the same was saved under both.
pub open spec fn can_take<T>(
    source: Seq<Option<Array<T>>>,
    sources: Seq<(Seq<char>, Parameter)>,
    target: Seq<Option<Array<T>>>,
    targets: Seq<(Seq<char>, Parameter)>,
) -> bool {
    &&& sources.len() == targets.len()
    &&& keys_differ(sources)
    &&& forall|i: int|
        0 <= i < sources.len() ==> {
            let a = source[(#[trigger] sources[i]).1.variable.id as int];
            let b = target[targets[i].1.variable.id as int];
            &&& targets[i].0 == sources[i].0
            &&& targets[i].1.variable.id < target.len()
            &&& a matches Some(x) ==> x.wf() && (b matches Some(y) ==> y.shape == x.shape)
        }
    &&& forall|i: int, j: int|
        0 <= i < j < targets.len() && (#[trigger] targets[i]).1 == (#[trigger] targets[j]).1
            ==> source[sources[i].1.variable.id as int] == source[sources[j].1.variable.id as int]
}

/// Whether one of the first `k` keys is a key of the parameter.
spec fn reached_by(targets: Seq<(Seq<char>, Parameter)>, p: Parameter, k: int) -> bool {
    exists|j: int| 0 <= j < k && (#[trigger] targets[j]).1 == p
}

proof fn lemma_loaded_so_far<T>(
    source: Seq<Option<Array<T>>>,
    sources: Seq<(Seq<char>, Parameter)>,
    target: Seq<Option<Array<T>>>,
    targets: Seq<(Seq<char>, Parameter)>,
    k: int,
)
    requires
        can_take(source, sources, target, targets),
        0 <= k <= targets.len(),
    ensures
        ({
            let file = as_file(saved(source, sources, sources.len() as int));
            let l = loaded(target, targets, file, k);
            &&& l.1 is None
            &&& l.0.len() == target.len()
            &&& forall|i: int|
                0 <= i < targets.len() ==> {
                    let a = source[sources[i].1.variable.id as int];
                    let at = (#[trigger] targets[i]).1.variable.id as int;
                    l.0[at] == if reached_by(targets, targets[i].1, k) && a is Some {
                        a
                    } else {
                        target[at]
                    }
                }
        }),
    decreases k,
{
    let s = saved(source, sources, sources.len() as int);
    let file = as_file(s);
    if k > 0 {
        lemma_loaded_so_far(source, sources, target, targets, k - 1);
        let j = k - 1;
        let (now, failure) = loaded(target, targets, file, j);
        let key = targets[j].0;
        let a = source[sources[j].1.variable.id as int];
        let at = targets[j].1.variable.id as int;
        lemma_lookup_saved(source, sources, sources.len() as int, j);
        assert(targets[j].0 == sources[j].0);
        assert(reached_by(targets, targets[j].1, k));
        assert forall|p: Parameter| p != targets[j].1 implies (#[trigger] reached_by(targets, p, k)
            <==> reached_by(targets, p, j)) by {
            if reached_by(targets, p, k) {
                let m = choose|m: int| 0 <= m < k && (#[trigger] targets[m]).1 == p;
                assert(m < j);
            }
        }
        assert(now[at] == target[at] || now[at] == a);
        if a is Some {
            let x = a->0;
            let i = choose|i: int|
                0 <= i < s.len() && #[trigger] s[i] == (sources[j].0, x) && forall|m: int|
                    0 <= m < s.len() && m != i ==> (#[trigger] s[m]).0 != sources[j].0;
            assert forall|m: int| 0 <= m < file.len() && m != i implies (#[trigger] file[m]).0
                != key by {
                assert(s[m].0 != sources[j].0);
            }
            lemma_lookup_at(file, key, 0, i);
            let entry = file[i].1;
            lemma_no_text(entry.data, 0);
            assert(restored(entry) =~= x);
            assert(complaint(key, shape_of(now[at]), entry) is None);
            let then_now = loaded(target, targets, file, k).0;
            assert(then_now == now.update(at, Some(x)));
            assert forall|i: int| 0 <= i < targets.len() implies ({
                let a = source[sources[i].1.variable.id as int];
                let at = (#[trigger] targets[i]).1.variable.id as int;
                then_now[at] == if reached_by(targets, targets[i].1, k) && a is Some {
                    a
                } else {
                    target[at]
                }
            }) by {
                if targets[i].1 == targets[j].1 {
                    if i < j {
                        assert(targets[i].1 == targets[j].1);
                    } else if j < i {
                        assert(targets[j].1 == targets[i].1);
                    }
                } else {
                    assert(targets[i].1.variable.id != targets[j].1.variable.id);
                }
            }
        } else {
            assert forall|m: int| 0 <= m < file.len() implies (#[trigger] file[m]).0 != key by {
                assert(s[m].0 != sources[j].0);
            }
            lemma_lookup_none(file, key, 0);
            assert forall|i: int| 0 <= i < targets.len() implies ({
                let a = source[sources[i].1.variable.id as int];
                let at = (#[trigger] targets[i]).1.variable.id as int;
                now[at] == if reached_by(targets, targets[i].1, k) && a is Some {
                    a
                } else {
                    target[at]
                }
            }) by {
                if targets[i].1 == targets[j].1 {
                    if i < j {
                        assert(targets[i].1 == targets[j].1);
                    } else if j < i {
                        assert(targets[j].1 == targets[i].1);
                    }
                }
            }
        }
    }
}

/// What was saved is loaded again: into a model whose parameters have the same keys,
/// and either nothing in them yet or arrays of the same shapes, loading what was saved
/// brings back every array that was saved, and leaves the other parameters alone. A
/// parameter may stand under several keys, as a tied weight does, so long as the same
/// array was saved under each.
pub proof fn what_was_saved_is_loaded<T>(
    source: Seq<Option<Array<T>>>,
    sources: Seq<(Seq<char>, Parameter)>,
    target: Seq<Option<Array<T>>>,
    targets: Seq<(Seq<char>, Parameter)>,
)
    requires
        can_take(source, sources, target, targets),
    ensures
        ({
            let file = as_file(saved(source, sources, sources.len() as int));
            let l = loaded(target, targets, file, targets.len() as int);
            &&& l.1 is None
            &&& l.0.len() == target.len()
            &&& forall|i: int|
                0 <= i < targets.len() ==> {
                    let a = source[sources[i].1.variable.id as int];
                    let at = (#[trigger] targets[i]).1.variable.id as int;
                    l.0[at] == if a is Some {
                        a
                    } else {
                        target[at]
                    }
                }
        }),
{
    lemma_loaded_so_far(source, sources, target, targets, targets.len() as int);
    assert forall|i: int| 0 <= i < targets.len() implies reached_by(
        targets,
        (#[trigger] targets[i]).1,
        targets.len() as int,
    ) by {}
}

} // verus!
