//! Labelled images out of a CSV text: one record for each image, the label in
//! the first field and the brightness of each pixel in the fields after it.
//!
//! Brightness stays a whole number here, and a target a vector of zeros and
//! a one; the caller turns both into fractions.

use vstd::prelude::*;

verus! {

/// The number of pixels of an image.
pub const PIXELS: usize = 784;

/// The number of classes that a label is one of.
pub const CLASSES: usize = 10;

/// The digit zero, as a byte of text; the other digits follow it in order.
pub const ZERO: u8 = 48;

/// The digit nine, as a byte of text.
pub const NINE: u8 = 57;

/// The plus sign, as a byte of text.
pub const PLUS: u8 = 43;

/// An image with its label, as a test set holds it.
#[derive(Debug)]
pub struct Sample {
    pub label: u8,
    pub pixels: Vec<u8>,
}

/// An image with the output asked of the network, as a training set holds
/// it: `target` has a one at the label and zeros elsewhere.
#[derive(Debug)]
pub struct TrainingSample {
    pub target: Vec<u8>,
    pub pixels: Vec<u8>,
}

impl View for Sample {
    type V = (u8, Seq<u8>);

    open spec fn view(&self) -> (u8, Seq<u8>) {
        (self.label, self.pixels@)
    }
}

impl View for TrainingSample {
    type V = (Seq<u8>, Seq<u8>);

    open spec fn view(&self) -> (Seq<u8>, Seq<u8>) {
        (self.target@, self.pixels@)
    }
}

/// Why a text gives no data set. `row` counts the records after the header
/// line from zero, `field` the fields of a record from zero.
#[derive(Clone, Copy, Debug, PartialEq, Eq, Structural)]
pub enum DataError {
    /// The text is no CSV that the reader accepts.
    Unreadable,
    /// A record without fields.
    MissingLabel { row: usize },
    /// The first field of a record is no number from 0 to 255.
    BadLabel { row: usize },
    /// A later field of a record is no number from 0 to 255; `field` is the
    /// first such field.
    BadPixel { row: usize, field: usize },
    /// A record has `found` pixels where an image has 784.
    PixelCount { row: usize, found: usize },
    /// A label of the training part is no class.
    LabelOutOfRange { row: usize, label: u8 },
}

/// The samples of a sequence, each by its view.
pub open spec fn samples_view(samples: Seq<Sample>) -> Seq<(u8, Seq<u8>)> {
    Seq::new(samples.len(), |i: int| samples[i]@)
}

/// The training samples of a sequence, each by its view.
pub open spec fn training_view(samples: Seq<TrainingSample>) -> Seq<(Seq<u8>, Seq<u8>)> {
    Seq::new(samples.len(), |i: int| samples[i]@)
}

/// The fields of a record, each by its view.
pub open spec fn fields_view(fields: Seq<Vec<u8>>) -> Seq<Seq<u8>> {
    Seq::new(fields.len(), |i: int| fields[i]@)
}

/// The records of a text, each by the views of its fields.
pub open spec fn records_view(rows: Seq<Vec<Vec<u8>>>) -> Seq<Seq<Seq<u8>>> {
    Seq::new(rows.len(), |i: int| fields_view(rows[i]@))
}

/// The first position from `from` on, and below `len`, at which `wrong`
/// holds; `len` where there is none.
pub open spec fn first_wrong(len: int, wrong: spec_fn(int) -> bool, from: int) -> int
    decreases len - from,
{
    if from >= len {
        len
    } else if wrong(from) {
        from
    } else {
        first_wrong(len, wrong, from + 1)
    }
}

/// The number that a run of decimal digits writes.
pub open spec fn digits_value(digits: Seq<u8>) -> int
    decreases digits.len(),
{
    if digits.len() == 0 {
        0
    } else {
        digits_value(digits.drop_last()) * 10 + (digits.last() - ZERO)
    }
}

/// The bytes are decimal digits, all of them.
pub open spec fn all_digits(digits: Seq<u8>) -> bool {
    forall|i: int| 0 <= i < digits.len() ==> ZERO <= #[trigger] digits[i] <= NINE
}

/// The text without a plus sign at its front.
pub open spec fn unsigned_part(text: Seq<u8>) -> Seq<u8> {
    if text.len() > 0 && text[0] == PLUS {
        text.subrange(1, text.len() as int)
    } else {
        text
    }
}

/// The number from 0 to 255 that a text writes in decimal digits: a plus
/// sign may stand before the digits, there is at least one digit, zeros at
/// the front do not count, and nothing else may stand in the text.
pub open spec fn decimal_u8(text: Seq<u8>) -> Option<u8> {
    let digits = unsigned_part(text);
    if digits.len() > 0 && all_digits(digits) && digits_value(digits) <= 255 {
        Some(digits_value(digits) as u8)
    } else {
        None
    }
}

/// The fields of a record that write no number from 0 to 255.
pub open spec fn unread_field(fields: Seq<Seq<u8>>) -> spec_fn(int) -> bool {
    |f: int| decimal_u8(fields[f]) is None
}

/// The records of a text that give no image.
pub open spec fn failing_record(rows: Seq<Seq<Seq<u8>>>) -> spec_fn(int) -> bool {
    |r: int| record_outcome(rows[r], r as usize) is Err
}

/// The samples whose label is no class.
pub open spec fn foreign_label(samples: Seq<(u8, Seq<u8>)>) -> spec_fn(int) -> bool {
    |i: int| samples[i].0 >= CLASSES
}

/// What a record gives: the image it writes, or the first thing that is
/// wrong with it. The label is read before the pixels, and the pixels are
/// read before they are counted.
pub open spec fn record_outcome(fields: Seq<Seq<u8>>, row: usize) -> Result<
    (u8, Seq<u8>),
    DataError,
> {
    let bad = first_wrong(fields.len() as int, unread_field(fields), 1);
    if fields.len() == 0 {
        Err(DataError::MissingLabel { row })
    } else if decimal_u8(fields[0]) is None {
        Err(DataError::BadLabel { row })
    } else if bad < fields.len() {
        Err(DataError::BadPixel { row, field: bad as usize })
    } else if fields.len() - 1 != PIXELS {
        Err(DataError::PixelCount { row, found: (fields.len() - 1) as usize })
    } else {
        Ok(
            (
                decimal_u8(fields[0])->0,
                Seq::new(PIXELS as nat, |p: int| decimal_u8(fields[p + 1])->0),
            ),
        )
    }
}

/// What the records of a text give: an image for each record, or what is
/// wrong with the first record that gives none.
pub open spec fn records_outcome(rows: Seq<Seq<Seq<u8>>>) -> Result<
    Seq<(u8, Seq<u8>)>,
    DataError,
> {
    let bad = first_wrong(rows.len() as int, failing_record(rows), 0);
    if bad < rows.len() {
        Err(record_outcome(rows[bad], bad as usize)->Err_0)
    } else {
        Ok(Seq::new(rows.len(), |r: int| record_outcome(rows[r], r as usize)->Ok_0))
    }
}

/// Where a data set of `len` samples is cut: nine tenths of it, rounded
/// down, are for training.
pub open spec fn split_point(len: int) -> int {
    len * 9 / 10
}

/// The vector of `len` entries with a one at `hot` and zeros elsewhere.
pub open spec fn one_hot(len: int, hot: int) -> Seq<u8> {
    Seq::new(
        len as nat,
        |i: int|
            if i == hot {
                1u8
            } else {
                0u8
            },
    )
}

/// What a data set gives when it is split: the training part with each
/// label as a target, and the test part as it is; or the first label of the
/// training part that is no class.
pub open spec fn split_outcome(samples: Seq<(u8, Seq<u8>)>) -> Result<
    (Seq<(Seq<u8>, Seq<u8>)>, Seq<(u8, Seq<u8>)>),
    DataError,
> {
    let cut = split_point(samples.len() as int);
    let bad = first_wrong(cut, foreign_label(samples), 0);
    if bad < cut {
        Err(DataError::LabelOutOfRange { row: bad as usize, label: samples[bad].0 })
    } else {
        Ok(
            (
                Seq::new(cut as nat, |i: int| (one_hot(CLASSES as int, samples[i].0 as int), samples[i].1)),
                samples.subrange(cut, samples.len() as int),
            ),
        )
    }
}

/// Nothing is wrong before `at`, and something is at `at`: the first wrong
/// position is `at`.
pub proof fn lemma_first_wrong_found(len: int, wrong: spec_fn(int) -> bool, from: int, at: int)
    requires
        from <= at < len,
        wrong(at),
        forall|i: int| from <= i < at ==> !(#[trigger] wrong(i)),
    ensures
        first_wrong(len, wrong, from) == at,
    decreases at - from,
{
    if from < at {
        lemma_first_wrong_found(len, wrong, from + 1, at);
    }
}

/// Nothing is wrong from `from` on: the first wrong position is `len`.
pub proof fn lemma_first_wrong_none(len: int, wrong: spec_fn(int) -> bool, from: int)
    requires
        from <= len,
        forall|i: int| from <= i < len ==> !(#[trigger] wrong(i)),
    ensures
        first_wrong(len, wrong, from) == len,
    decreases len - from,
{
    if from < len {
        lemma_first_wrong_none(len, wrong, from + 1);
    }
}

/// More digits never write a smaller number.
pub proof fn lemma_digits_value_grows(digits: Seq<u8>, upto: int)
    requires
        all_digits(digits),
        0 <= upto <= digits.len(),
    ensures
        0 <= digits_value(digits.subrange(0, upto)) <= digits_value(digits),
    decreases digits.len() - upto,
{
    if upto == digits.len() {
        assert(digits.subrange(0, upto) =~= digits);
        lemma_digits_value_not_negative(digits);
    } else {
        lemma_digits_value_grows(digits, upto + 1);
        let longer = digits.subrange(0, upto + 1);
        assert(longer.drop_last() =~= digits.subrange(0, upto));
        assert(longer.last() == digits[upto]);
        lemma_digits_value_not_negative(digits.subrange(0, upto));
    }
}

/// Digits write no negative number.
pub proof fn lemma_digits_value_not_negative(digits: Seq<u8>)
    requires
        all_digits(digits),
    ensures
        0 <= digits_value(digits),
    decreases digits.len(),
{
    if digits.len() > 0 {
        lemma_digits_value_not_negative(digits.drop_last());
    }
}

/// Reads a number from 0 to 255 in decimal digits, as `str::parse` reads a
/// `u8`: a plus sign may come first, at least one digit follows, and
/// nothing else.
pub fn parse_u8(text: &Vec<u8>) -> (number: Option<u8>)
    ensures
        number == decimal_u8(text@),
{
    let start: usize = if text.len() > 0 && text[0] == PLUS {
        1
    } else {
        0
    };
    let ghost digits = unsigned_part(text@);
    assert(digits =~= text@.subrange(start as int, text@.len() as int));
    if start == text.len() {
        return None;
    }
    let mut value: u16 = 0;
    let mut i: usize = start;
    while i < text.len()
        invariant
            start <= i <= text.len(),
            digits == unsigned_part(text@),
            digits == text@.subrange(start as int, text@.len() as int),
            all_digits(digits.subrange(0, i - start)),
            value == digits_value(digits.subrange(0, i - start)),
            value <= 255,
        decreases text.len() - i,
    {
        let byte = text[i];
        if byte < ZERO || byte > NINE {
            assert(digits[i - start] == byte);
            return None;
        }
        let ghost longer = digits.subrange(0, i - start + 1);
        assert(longer.drop_last() =~= digits.subrange(0, i - start));
        assert(longer.last() == byte);
        value = value * 10 + (byte - ZERO) as u16;
        if value > 255 {
            proof {
                if all_digits(digits) {
                    lemma_digits_value_grows(digits, i - start + 1);
                }
            }
            return None;
        }
        i += 1;
    }
    assert(digits.subrange(0, i - start) =~= digits);
    Some(value as u8)
}

/// `Error` of the `csv` crate: what its reader reports of a text that it
/// does not accept. Nothing is known here of what is inside it.
#[verifier::external_type_specification]
#[verifier::external_body]
pub struct ExCsvError(csv::Error);

/// The records that the `csv` crate's reader, as `Reader::from_reader` sets
/// it up, finds in a text: each record by its fields, the header line left
/// out; `None` where the reader reports an error.
pub uninterp spec fn csv_records(text: Seq<u8>) -> Option<Seq<Seq<Seq<u8>>>>;

/// `Reader::from_reader` and `Reader::records` of the `csv` crate, on a text
/// held in memory; each field of each record is then copied out as bytes.
/// The result is named, not described: the claim is that what this reader
/// finds depends on the bytes of the text and on nothing else. Its first
/// error, if it meets one, is handed on.
#[verifier::external_body]
fn read_records(text: &Vec<u8>) -> (read: Result<Vec<Vec<Vec<u8>>>, csv::Error>)
    ensures
        match read {
            Ok(rows) => csv_records(text@) == Some(records_view(rows@)),
            Err(_) => csv_records(text@) is None,
        },
{
    csv::Reader::from_reader(text.as_slice())
        .records()
        .map(|read| read.map(|record| record.iter().map(|field| field.as_bytes().to_vec()).collect()))
        .collect()
}

/// Reads one record: the label from its first field, a pixel from each
/// field after it. `row` is the number of the record, for the error.
pub fn parse_record(fields: &Vec<Vec<u8>>, row: usize) -> (parsed: Result<Sample, DataError>)
    ensures
        match parsed {
            Ok(sample) => record_outcome(fields_view(fields@), row) == Ok::<
                (u8, Seq<u8>),
                DataError,
            >(sample@),
            Err(e) => record_outcome(fields_view(fields@), row) == Err::<(u8, Seq<u8>), DataError>(
                e,
            ),
        },
{
    let ghost texts = fields_view(fields@);
    if fields.len() == 0 {
        return Err(DataError::MissingLabel { row });
    }
    let label = match parse_u8(&fields[0]) {
        Some(label) => label,
        None => {
            return Err(DataError::BadLabel { row });
        },
    };
    let mut pixels: Vec<u8> = Vec::new();
    let mut f: usize = 1;
    while f < fields.len()
        invariant
            1 <= f <= fields.len(),
            texts == fields_view(fields@),
            decimal_u8(texts[0]) is Some,
            pixels@.len() == f - 1,
            forall|g: int| 1 <= g < f ==> !(#[trigger] unread_field(texts)(g)),
            forall|p: int| 0 <= p < f - 1 ==> decimal_u8(texts[p + 1]) == Some(#[trigger] pixels@[p]),
        decreases fields.len() - f,
    {
        match parse_u8(&fields[f]) {
            Some(pixel) => {
                pixels.push(pixel);
            },
            None => {
                proof {
                    lemma_first_wrong_found(texts.len() as int, unread_field(texts), 1, f as int);
                }
                return Err(DataError::BadPixel { row, field: f });
            },
        }
        f += 1;
    }
    proof {
        lemma_first_wrong_none(texts.len() as int, unread_field(texts), 1);
    }
    if pixels.len() != PIXELS {
        return Err(DataError::PixelCount { row, found: pixels.len() });
    }
    assert(pixels@ =~= Seq::new(PIXELS as nat, |p: int| decimal_u8(texts[p + 1])->0));
    Ok(Sample { label, pixels })
}

/// Reads every record, in order, and stops at the first that gives no
/// image.
pub fn parse_records(rows: &Vec<Vec<Vec<u8>>>) -> (parsed: Result<Vec<Sample>, DataError>)
    ensures
        match parsed {
            Ok(samples) => records_outcome(records_view(rows@)) == Ok::<
                Seq<(u8, Seq<u8>)>,
                DataError,
            >(samples_view(samples@)),
            Err(e) => records_outcome(records_view(rows@)) == Err::<
                Seq<(u8, Seq<u8>)>,
                DataError,
            >(e),
        },
{
    let ghost texts = records_view(rows@);
    let mut samples: Vec<Sample> = Vec::new();
    let mut r: usize = 0;
    while r < rows.len()
        invariant
            r <= rows.len(),
            texts == records_view(rows@),
            samples@.len() == r,
            forall|q: int| 0 <= q < r ==> !(#[trigger] failing_record(texts)(q)),
            forall|q: int|
                0 <= q < r ==> record_outcome(texts[q], q as usize) == Ok::<
                    (u8, Seq<u8>),
                    DataError,
                >((#[trigger] samples@[q])@),
        decreases rows.len() - r,
    {
        match parse_record(&rows[r], r) {
            Ok(sample) => {
                samples.push(sample);
            },
            Err(e) => {
                proof {
                    lemma_first_wrong_found(texts.len() as int, failing_record(texts), 0, r as int);
                }
                return Err(e);
            },
        }
        r += 1;
    }
    proof {
        lemma_first_wrong_none(texts.len() as int, failing_record(texts), 0);
        assert(samples_view(samples@) =~= Seq::new(
            texts.len(),
            |r: int| record_outcome(texts[r], r as usize)->Ok_0,
        ));
    }
    Ok(samples)
}

/// The target that stands for a label: ten entries, a one at the label and
/// zeros elsewhere. A number from ten on is no label.
pub fn vectorize_label(num: usize) -> (target: Option<Vec<u8>>)
    ensures
        match target {
            Some(vector) => num < CLASSES && vector@ == one_hot(CLASSES as int, num as int),
            None => num >= CLASSES,
        },
{
    if num >= CLASSES {
        return None;
    }
    let mut vector: Vec<u8> = Vec::new();
    let mut i: usize = 0;
    while i < CLASSES
        invariant
            i <= CLASSES,
            vector@ == one_hot(i as int, num as int),
        decreases CLASSES - i,
    {
        vector.push(if i == num { 1 } else { 0 });
        i += 1;
        assert(vector@ =~= one_hot(i as int, num as int));
    }
    Some(vector)
}

/// Nine tenths of `len`, rounded down.
pub fn training_share(len: usize) -> (cut: usize)
    ensures
        cut == split_point(len as int),
        cut <= len,
{
    let cut = (len / 10) * 9 + ((len % 10) * 9) / 10;
    assert(cut == len * 9 / 10) by (nonlinear_arith)
        requires
            cut == (len / 10) * 9 + ((len % 10) * 9) / 10,
            len >= 0,
    ;
    cut
}

/// Splits a data set: the first nine tenths, rounded down, become the
/// training set, each label turned into its target; the rest is the test
/// set, as it is. A label of the training part that is no class is reported;
/// the first such label is.
pub fn split_and_format_dataset(dataset: &Vec<Sample>) -> (split: Result<
    (Vec<TrainingSample>, Vec<Sample>),
    DataError,
>)
    ensures
        match split {
            Ok((train, test)) => split_outcome(samples_view(dataset@)) == Ok::<
                (Seq<(Seq<u8>, Seq<u8>)>, Seq<(u8, Seq<u8>)>),
                DataError,
            >((training_view(train@), samples_view(test@))),
            Err(e) => split_outcome(samples_view(dataset@)) == Err::<
                (Seq<(Seq<u8>, Seq<u8>)>, Seq<(u8, Seq<u8>)>),
                DataError,
            >(e),
        },
{
    let ghost given = samples_view(dataset@);
    let cut = training_share(dataset.len());
    let mut train: Vec<TrainingSample> = Vec::new();
    let mut i: usize = 0;
    while i < cut
        invariant
            i <= cut <= dataset.len(),
            cut == split_point(dataset.len() as int),
            given == samples_view(dataset@),
            train@.len() == i,
            forall|j: int| 0 <= j < i ==> !(#[trigger] foreign_label(given)(j)),
            forall|j: int|
                0 <= j < i ==> (#[trigger] train@[j])@ == (
                    one_hot(CLASSES as int, given[j].0 as int),
                    given[j].1,
                ),
        decreases cut - i,
    {
        let sample = &dataset[i];
        match vectorize_label(sample.label as usize) {
            Some(target) => {
                train.push(TrainingSample { target, pixels: copy_of(&sample.pixels) });
            },
            None => {
                proof {
                    lemma_first_wrong_found(cut as int, foreign_label(given), 0, i as int);
                }
                return Err(DataError::LabelOutOfRange { row: i, label: sample.label });
            },
        }
        i += 1;
    }
    let mut test: Vec<Sample> = Vec::new();
    while i < dataset.len()
        invariant
            cut <= i <= dataset.len(),
            given == samples_view(dataset@),
            test@.len() == i - cut,
            forall|j: int| 0 <= j < i - cut ==> (#[trigger] test@[j])@ == given[cut + j],
        decreases dataset.len() - i,
    {
        let sample = &dataset[i];
        test.push(Sample { label: sample.label, pixels: copy_of(&sample.pixels) });
        i += 1;
    }
    proof {
        lemma_first_wrong_none(cut as int, foreign_label(given), 0);
        assert(training_view(train@) =~= Seq::new(
            cut as nat,
            |i: int| (one_hot(CLASSES as int, given[i].0 as int), given[i].1),
        ));
        assert(samples_view(test@) =~= given.subrange(cut as int, given.len() as int));
    }
    Ok((train, test))
}

/// A copy of a vector of bytes.
fn copy_of(bytes: &Vec<u8>) -> (copy: Vec<u8>)
    ensures
        copy@ == bytes@,
{
    let copy = bytes.clone();
    assert(copy@ =~= bytes@);
    copy
}

/// What a text gives: unreadable, or what its records give, and then what
/// the split of the samples gives.
pub open spec fn data_outcome(text: Seq<u8>) -> Result<
    (Seq<(Seq<u8>, Seq<u8>)>, Seq<(u8, Seq<u8>)>),
    DataError,
> {
    match csv_records(text) {
        None => Err(DataError::Unreadable),
        Some(rows) => match records_outcome(rows) {
            Err(e) => Err(e),
            Ok(samples) => split_outcome(samples),
        },
    }
}

/// Reads a data set from a CSV text with a header line: the records are
/// read, each is turned into a labelled image, and the images are split
/// into a training set and a test set.
pub fn get_data(text: &Vec<u8>) -> (loaded: Result<(Vec<TrainingSample>, Vec<Sample>), DataError>)
    ensures
        match loaded {
            Ok((train, test)) => data_outcome(text@) == Ok::<
                (Seq<(Seq<u8>, Seq<u8>)>, Seq<(u8, Seq<u8>)>),
                DataError,
            >((training_view(train@), samples_view(test@))),
            Err(e) => data_outcome(text@) == Err::<
                (Seq<(Seq<u8>, Seq<u8>)>, Seq<(u8, Seq<u8>)>),
                DataError,
            >(e),
        },
{
    let rows = match read_records(text) {
        Ok(rows) => rows,
        Err(_) => {
            return Err(DataError::Unreadable);
        },
    };
    let samples = match parse_records(&rows) {
        Ok(samples) => samples,
        Err(e) => {
            return Err(e);
        },
    };
    split_and_format_dataset(&samples)
}

} // verus!
