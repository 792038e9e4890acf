//! Dataset loading, training and evaluation.

use vstd::prelude::*;

use crate::ModelError;
use crate::perceptron::{
    FEATURE_COUNT, Neuron, NeuronModel, Perceptron, lemma_argmax_is_first_max, spec_argmax,
};

verus! {

/// A training or evaluation unit: a feature vector of pixel numerators over
/// 255 (each in `[0, 1]` as a real value) and a class label.
pub type Sample = (Vec<u8>, usize);

/// Splitting a byte sequence at every occurrence of `sep`. The result always
/// holds at least one piece; an empty input yields one empty piece.
pub open spec fn spec_split(s: Seq<u8>, sep: u8) -> Seq<Seq<u8>>
    decreases s.len(),
{
    if s.len() == 0 {
        seq![Seq::<u8>::empty()]
    } else {
        let rest = spec_split(s.drop_last(), sep);
        if s.last() == sep {
            rest.push(Seq::<u8>::empty())
        } else {
            rest.update(rest.len() - 1, rest.last().push(s.last()))
        }
    }
}

/// Splits a byte vector at every occurrence of `sep`.
pub fn split_bytes(s: &Vec<u8>, sep: u8) -> (r: Vec<Vec<u8>>)
    ensures
        r.deep_view() == spec_split(s@, sep),
{
    let mut tokens: Vec<Vec<u8>> = Vec::new();
    let mut cur: Vec<u8> = Vec::new();
    let mut i: usize = 0;
    proof {
        assert(s@.take(0) =~= Seq::<u8>::empty());
        assert(tokens.deep_view().push(cur@) =~~= seq![Seq::<u8>::empty()]);
    }
    while i < s.len()
        invariant
            0 <= i <= s@.len(),
            tokens.deep_view().push(cur@) == spec_split(s@.take(i as int), sep),
        decreases s@.len() - i,
    {
        let ghost prefix = s@.take(i as int);
        let ghost prefix1 = s@.take(i as int + 1);
        proof {
            assert(prefix1.drop_last() =~= prefix);
            assert(prefix1.last() == s@[i as int]);
        }
        let c: u8 = s[i];
        if c == sep {
            let ghost old_tokens = tokens.deep_view();
            let ghost old_cur = cur@;
            tokens.push(cur);
            cur = Vec::new();
            proof {
                assert(tokens.deep_view() =~~= old_tokens.push(old_cur));
                assert(tokens.deep_view().push(cur@) =~~= spec_split(prefix, sep).push(
                    Seq::<u8>::empty(),
                ));
            }
        } else {
            let ghost old_split = spec_split(prefix, sep);
            let ghost old_cur = cur@;
            cur.push(c);
            proof {
                assert(old_split.len() == tokens.deep_view().len() + 1);
                assert(old_split.last() == old_cur);
                assert(tokens.deep_view().push(cur@) =~~= old_split.update(
                    old_split.len() - 1,
                    old_cur.push(c),
                ));
            }
        }
        i = i + 1;
    }
    proof {
        assert(s@.take(i as int) =~= s@);
    }
    tokens.push(cur);
    let ghost result = tokens.deep_view();
    proof {
        assert(result =~~= spec_split(s@, sep));
    }
    tokens
}

/// The whitespace the loader strips from a token: spaces, tabs and the
/// carriage return a CRLF line ending leaves on a line's last token.
pub open spec fn is_ws(c: u8) -> bool {
    c == 32 || c == 9 || c == 13
}

pub open spec fn trim_front(t: Seq<u8>) -> Seq<u8>
    decreases t.len(),
{
    if t.len() > 0 && is_ws(t[0]) {
        trim_front(t.drop_first())
    } else {
        t
    }
}

pub open spec fn trim_back(t: Seq<u8>) -> Seq<u8>
    decreases t.len(),
{
    if t.len() > 0 && is_ws(t.last()) {
        trim_back(t.drop_last())
    } else {
        t
    }
}

/// A token with leading and trailing whitespace removed.
pub open spec fn spec_trim(t: Seq<u8>) -> Seq<u8> {
    trim_back(trim_front(t))
}

/// Removes leading and trailing whitespace from a token.
pub fn trim(t: &Vec<u8>) -> (r: Vec<u8>)
    ensures
        r@ == spec_trim(t@),
{
    let mut lo: usize = 0;
    proof {
        assert(t@.skip(0) =~= t@);
    }
    while lo < t.len() && (t[lo] == 32 || t[lo] == 9 || t[lo] == 13)
        invariant
            0 <= lo <= t@.len(),
            trim_front(t@) == trim_front(t@.skip(lo as int)),
        decreases t@.len() - lo,
    {
        proof {
            assert(t@.skip(lo as int)[0] == t@[lo as int]);
            assert(t@.skip(lo as int).drop_first() =~= t@.skip(lo as int + 1));
        }
        lo = lo + 1;
    }
    proof {
        if lo < t@.len() {
            assert(t@.skip(lo as int)[0] == t@[lo as int]);
        } else {
            assert(t@.skip(lo as int) =~= Seq::<u8>::empty());
        }
        assert(trim_front(t@) == t@.skip(lo as int));
    }
    let mut hi: usize = t.len();
    while hi > lo && (t[hi - 1] == 32 || t[hi - 1] == 9 || t[hi - 1] == 13)
        invariant
            lo <= hi <= t@.len(),
            trim_front(t@) == t@.skip(lo as int),
            trim_back(t@.skip(lo as int)) == trim_back(t@.subrange(lo as int, hi as int)),
        decreases hi,
    {
        proof {
            assert(t@.skip(lo as int) =~= t@.subrange(lo as int, t@.len() as int));
            let sub = t@.subrange(lo as int, hi as int);
            assert(sub.last() == t@[hi as int - 1]);
            assert(sub.drop_last() =~= t@.subrange(lo as int, hi as int - 1));
        }
        hi = hi - 1;
    }
    proof {
        let sub = t@.subrange(lo as int, hi as int);
        if hi > lo {
            assert(sub.last() == t@[hi as int - 1]);
        }
        assert(trim_back(sub) == sub);
        assert(spec_trim(t@) == t@.subrange(lo as int, hi as int));
    }
    let mut r: Vec<u8> = Vec::new();
    let mut k: usize = lo;
    while k < hi
        invariant
            lo <= k <= hi <= t@.len(),
            r@ =~= t@.subrange(lo as int, k as int),
        decreases hi - k,
    {
        r.push(t[k]);
        proof {
            assert(r@ =~= t@.subrange(lo as int, k as int + 1));
        }
        k = k + 1;
    }
    proof {
        assert(r@ =~= spec_trim(t@));
    }
    r
}

/// An ASCII decimal digit.
pub open spec fn is_digit(c: u8) -> bool {
    48 <= c <= 57
}

pub open spec fn all_digits(t: Seq<u8>) -> bool {
    forall|i: int| 0 <= i < t.len() ==> is_digit(#[trigger] t[i])
}

/// The value of a digit string, most significant digit first.
pub open spec fn digits_val(t: Seq<u8>) -> nat
    decreases t.len(),
{
    if t.len() == 0 {
        0
    } else {
        digits_val(t.drop_last()) * 10 + (t.last() - 48) as nat
    }
}

/// What a numeric token means: a nonempty string of ASCII digits, with its
/// value; anything else is malformed.
pub open spec fn spec_parse_nat(t: Seq<u8>) -> Option<nat> {
    if t.len() > 0 && all_digits(t) {
        Some(digits_val(t))
    } else {
        None
    }
}

/// Parses a token as a natural number, rejecting malformed tokens and
/// values above `max`.
pub fn parse_nat_max(t: &Vec<u8>, max: u64) -> (r: Option<u64>)
    ensures
        match spec_parse_nat(t@) {
            Some(n) => r == (if n <= max {
                Some(n as u64)
            } else {
                None::<u64>
            }),
            None => r == None::<u64>,
        },
{
    if t.len() == 0 {
        return None;
    }
    let mut acc: u128 = 0;
    let mut i: usize = 0;
    while i < t.len()
        invariant
            0 < t@.len(),
            0 <= i <= t@.len(),
            all_digits(t@.take(i as int)),
            digits_val(t@.take(i as int)) <= max ==> acc == digits_val(t@.take(i as int)),
            digits_val(t@.take(i as int)) > max ==> acc > max,
            acc <= max as u128 * 10 + 9,
        decreases t@.len() - i,
    {
        let c: u8 = t[i];
        if c < 48 || c > 57 {
            return None;
        }
        let ghost prefix = t@.take(i as int);
        let ghost prefix1 = t@.take(i as int + 1);
        proof {
            assert(prefix1.drop_last() =~= prefix);
            assert(prefix1.last() == c);
            assert(all_digits(prefix1));
        }
        let d: u128 = (c - 48) as u128;
        if acc <= max as u128 {
            acc = acc * 10 + d;
        } else {
            proof {
                assert(digits_val(prefix) > max);
                assert(digits_val(prefix1) == digits_val(prefix) * 10 + (c - 48) as nat);
                assert(digits_val(prefix) * 10 >= digits_val(prefix));
            }
        }
        i = i + 1;
    }
    proof {
        assert(t@.take(i as int) =~= t@);
    }
    if acc <= max as u128 {
        Some(acc as u64)
    } else {
        None
    }
}

/// A dataset row holds `1 + FEATURE_COUNT` comma-separated tokens.
pub open spec fn row_width() -> int {
    1 + FEATURE_COUNT as int
}

/// The comma-separated fields of one row.
pub open spec fn row_fields(line: Seq<u8>) -> Seq<Seq<u8>> {
    spec_split(line, 44)
}

/// A row with fewer than `1 + FEATURE_COUNT` tokens is skipped silently.
pub open spec fn row_is_short(line: Seq<u8>) -> bool {
    row_fields(line).len() < row_width()
}

/// Field `j` of the row, trimmed.
pub open spec fn token_at(line: Seq<u8>, j: int) -> Seq<u8> {
    spec_trim(row_fields(line)[j])
}

/// Token `j` of a full-width row is well formed: the label (token 0) is a
/// natural number that fits the machine, and each pixel is a natural
/// number at most 255.
pub open spec fn token_ok(line: Seq<u8>, j: int) -> bool {
    match spec_parse_nat(token_at(line, j)) {
        Some(n) => if j == 0 {
            n <= usize::MAX as nat
        } else {
            n <= 255
        },
        None => false,
    }
}

/// The first malformed token of a full-width row, scanning left to right;
/// `row_width()` if every token is well formed.
pub open spec fn first_bad_token(line: Seq<u8>, j: int) -> int
    decreases row_width() - j,
{
    if j < 0 || j >= row_width() {
        row_width()
    } else if !token_ok(line, j) {
        j
    } else {
        first_bad_token(line, j + 1)
    }
}

/// A full-width row with a malformed token: it aborts the whole load.
pub open spec fn row_bad(line: Seq<u8>) -> bool {
    !row_is_short(line) && first_bad_token(line, 0) < row_width()
}

/// A full-width row of well-formed tokens: it yields one sample.
pub open spec fn row_good(line: Seq<u8>) -> bool {
    !row_is_short(line) && first_bad_token(line, 0) == row_width()
}

/// The parsed value of token `j`, for a well-formed token.
pub open spec fn token_val(line: Seq<u8>, j: int) -> nat {
    match spec_parse_nat(token_at(line, j)) {
        Some(n) => n,
        None => 0,
    }
}

/// A good row's label: its first token's value.
pub open spec fn row_label(line: Seq<u8>) -> nat {
    token_val(line, 0)
}

/// A good row's feature vector: pixel numerators over 255, in token order.
/// Each numerator is the raw intensity token, so each feature is exactly
/// the token's value divided by 255.
pub open spec fn row_pixels(line: Seq<u8>) -> Seq<u8> {
    Seq::new(FEATURE_COUNT as nat, |j: int| token_val(line, j + 1) as u8)
}

/// The first malformed token lies between the scan start and the row width.
pub proof fn lemma_first_bad_token_range(line: Seq<u8>, j: int)
    requires
        0 <= j <= row_width(),
    ensures
        j <= first_bad_token(line, j) <= row_width(),
    decreases row_width() - j,
{
    if j < row_width() && token_ok(line, j) {
        lemma_first_bad_token_range(line, j + 1);
    }
}

/// Tokens known well formed up to `b` push the first malformed token past `b`.
pub proof fn lemma_first_bad_token_skip(line: Seq<u8>, a: int, b: int)
    requires
        0 <= a <= b <= row_width(),
        forall|q: int| a <= q < b ==> token_ok(line, q),
    ensures
        first_bad_token(line, a) == first_bad_token(line, b),
    decreases b - a,
{
    if a < b {
        lemma_first_bad_token_skip(line, a + 1, b);
    }
}

/// The outcome of parsing one dataset row.
pub enum RowOutcome {
    /// The row had too few tokens and is skipped.
    Skip,
    /// Token `token` of the row is malformed; the load aborts.
    Bad { token: usize },
    /// A well-formed row: a feature vector and its label.
    Parsed { pixels: Vec<u8>, label: usize },
}

/// Parses one dataset row: a label token followed by `FEATURE_COUNT` raw
/// pixel tokens, comma-separated. Extra tokens beyond the width are
/// ignored, as the row-oriented format allows.
pub fn parse_row(line: &Vec<u8>) -> (r: RowOutcome)
    ensures
        row_is_short(line@) ==> r == RowOutcome::Skip,
        row_bad(line@) ==> r == (RowOutcome::Bad {
            token: first_bad_token(line@, 0) as usize,
        }),
        row_good(line@) ==> (r matches RowOutcome::Parsed { pixels, label } && pixels@
            == row_pixels(line@) && label as nat == row_label(line@)),
{
    let fields = split_bytes(line, 44);
    proof {
        assert(fields.deep_view() == row_fields(line@));
    }
    if fields.len() < 1 + FEATURE_COUNT {
        return RowOutcome::Skip;
    }
    let label_tok = trim(&fields[0]);
    proof {
        assert(fields@[0].deep_view() =~= fields@[0]@);
        assert(label_tok@ == token_at(line@, 0));
    }
    let label: usize = match parse_nat_max(&label_tok, usize::MAX as u64) {
        Some(v) => v as usize,
        None => {
            proof {
                assert(!token_ok(line@, 0));
            }
            return RowOutcome::Bad { token: 0 };
        },
    };
    proof {
        assert(token_ok(line@, 0));
        assert(label as nat == row_label(line@));
    }
    let mut pixels: Vec<u8> = Vec::new();
    let mut j: usize = 1;
    while j < 1 + FEATURE_COUNT
        invariant
            1 <= j <= row_width(),
            fields.deep_view() == row_fields(line@),
            fields@.len() >= row_width(),
            pixels@.len() == j - 1,
            forall|q: int| 0 <= q < j ==> token_ok(line@, q),
            forall|q: int|
                0 <= q < j - 1 ==> (#[trigger] pixels@[q]) as nat == token_val(line@, q + 1),
        decreases 1 + FEATURE_COUNT - j,
    {
        let tok = trim(&fields[j]);
        proof {
            assert(fields@[j as int].deep_view() =~= fields@[j as int]@);
            assert(tok@ == token_at(line@, j as int));
        }
        match parse_nat_max(&tok, 255) {
            Some(v) => {
                pixels.push(v as u8);
            },
            None => {
                proof {
                    assert(!token_ok(line@, j as int));
                    lemma_first_bad_token_skip(line@, 0, j as int);
                }
                return RowOutcome::Bad { token: j };
            },
        }
        j = j + 1;
    }
    proof {
        lemma_first_bad_token_skip(line@, 0, row_width());
        assert(row_good(line@));
        assert forall|k: int| 0 <= k < FEATURE_COUNT implies pixels@[k] == row_pixels(line@)[k] by {
            assert(pixels@[k] as nat == token_val(line@, k + 1));
            assert(row_pixels(line@)[k] == token_val(line@, k + 1) as u8);
        }
        assert(pixels@ =~= row_pixels(line@));
    }
    RowOutcome::Parsed { pixels, label }
}

/// The rows of a dataset source: its byte content split at newlines.
pub open spec fn dataset_lines(src: Seq<u8>) -> Seq<Seq<u8>> {
    spec_split(src, 10)
}

/// The first row that aborts the load, scanning top to bottom;
/// `lines.len()` if none does.
pub open spec fn first_bad_line(lines: Seq<Seq<u8>>, i: int) -> int
    decreases lines.len() - i,
{
    if i < 0 || i >= lines.len() {
        lines.len() as int
    } else if row_bad(lines[i]) {
        i
    } else {
        first_bad_line(lines, i + 1)
    }
}

/// The samples of the good rows from `i` on, in row order.
pub open spec fn good_samples(lines: Seq<Seq<u8>>, i: int) -> Seq<(Seq<u8>, nat)>
    decreases lines.len() - i,
{
    if i < 0 || i >= lines.len() {
        Seq::empty()
    } else if row_good(lines[i]) {
        seq![(row_pixels(lines[i]), row_label(lines[i]))] + good_samples(lines, i + 1)
    } else {
        good_samples(lines, i + 1)
    }
}

/// A single malformed row aborts the whole load: wherever a bad row
/// stands, the first bad row exists, so `load_dataset` returns the parse
/// error and no samples at all — never a partial list.
pub proof fn lemma_malformed_row_aborts(lines: Seq<Seq<u8>>, i: int)
    requires
        0 <= i < lines.len(),
        row_bad(lines[i]),
    ensures
        first_bad_line(lines, 0) <= i,
{
    lemma_first_bad_line_le(lines, 0, i);
}

proof fn lemma_first_bad_line_le(lines: Seq<Seq<u8>>, j: int, i: int)
    requires
        0 <= j <= i < lines.len(),
        row_bad(lines[i]),
    ensures
        first_bad_line(lines, j) <= i,
    decreases i - j,
{
    if j < i && !row_bad(lines[j]) {
        lemma_first_bad_line_le(lines, j + 1, i);
    }
}

/// The mathematical content of a sample vector.
pub open spec fn samples_model(v: Seq<(Vec<u8>, usize)>) -> Seq<(Seq<u8>, nat)> {
    Seq::new(v.len(), |k: int| (v[k].0@, v[k].1 as nat))
}

/// Loads a dataset from its raw bytes: one record per line, comma-separated
/// tokens `label,p0,...`, each pixel a raw intensity in `[0, 255]` stored
/// as a feature numerator over 255. Short rows are skipped; the first
/// malformed numeric token aborts the whole load with `DatasetParse`
/// naming its line and token, and no partial dataset is returned. An
/// empty source yields an empty dataset.
pub fn load_dataset(src: &Vec<u8>) -> (r: Result<Vec<Sample>, ModelError>)
    ensures
        ({
            let lines = dataset_lines(src@);
            let fb = first_bad_line(lines, 0);
            &&& fb < lines.len() ==> r == Err::<Vec<Sample>, ModelError>(
                (ModelError::DatasetParse {
                    line: fb as usize,
                    token: first_bad_token(lines[fb], 0) as usize,
                }),
            )
            &&& fb == lines.len() ==> (r matches Ok(v) && samples_model(v@) == good_samples(
                lines,
                0,
            ))
        }),
{
    let lines = split_bytes(src, 10);
    let ghost dl = dataset_lines(src@);
    proof {
        assert(lines.deep_view() == dl);
    }
    let mut out: Vec<Sample> = Vec::new();
    let mut i: usize = 0;
    proof {
        assert(samples_model(out@) =~= Seq::<(Seq<u8>, nat)>::empty());
    }
    while i < lines.len()
        invariant
            0 <= i <= lines@.len(),
            dl == dataset_lines(src@),
            lines.deep_view() == dl,
            dl.len() == lines@.len(),
            first_bad_line(dl, 0) == first_bad_line(dl, i as int),
            good_samples(dl, 0) == samples_model(out@) + good_samples(dl, i as int),
        decreases lines@.len() - i,
    {
        proof {
            assert(lines@[i as int].deep_view() =~= lines@[i as int]@);
            assert(dl[i as int] == lines@[i as int]@);
        }
        let outcome = parse_row(&lines[i]);
        proof {
            lemma_first_bad_token_range(dl[i as int], 0);
        }
        match outcome {
            RowOutcome::Skip => {
                proof {
                    assert(!row_bad(dl[i as int]) && !row_good(dl[i as int]));
                }
            },
            RowOutcome::Bad { token } => {
                proof {
                    assert(!row_is_short(dl[i as int]) && !row_good(dl[i as int]));
                    assert(row_bad(dl[i as int]));
                    assert(first_bad_line(dl, i as int) == i as int);
                    assert(first_bad_line(dl, 0) == i as int);
                }
                return Err(ModelError::DatasetParse { line: i, token });
            },
            RowOutcome::Parsed { pixels, label } => {
                proof {
                    assert(!row_is_short(dl[i as int]) && !row_bad(dl[i as int]));
                    assert(row_good(dl[i as int]));
                }
                let ghost old_out = out@;
                out.push((pixels, label));
                proof {
                    assert(samples_model(out@) =~= samples_model(old_out).push(
                        (row_pixels(dl[i as int]), row_label(dl[i as int])),
                    ));
                    assert(samples_model(old_out) + good_samples(dl, i as int) =~= samples_model(
                        out@,
                    ) + good_samples(dl, i as int + 1));
                }
            },
        }
        i = i + 1;
    }
    proof {
        assert(good_samples(dl, i as int) =~= Seq::<(Seq<u8>, nat)>::empty());
        assert(good_samples(dl, 0) =~= samples_model(out@));
    }
    Ok(out)
}

/// The loader's round trip: over a source of well-formed full-width rows
/// only, every row yields exactly one sample, in order; sample `i` carries
/// the label of row `i`'s first token and, as features, row `i`'s pixel
/// tokens as numerators over 255 — each feature is exactly its raw token
/// divided by 255.
pub proof fn lemma_load_round_trip(lines: Seq<Seq<u8>>)
    requires
        forall|i: int| 0 <= i < lines.len() ==> row_good(#[trigger] lines[i]),
    ensures
        first_bad_line(lines, 0) == lines.len(),
        good_samples(lines, 0).len() == lines.len(),
        forall|i: int|
            0 <= i < lines.len() ==> good_samples(lines, 0)[i] == (
            row_pixels(#[trigger] lines[i]),
            row_label(lines[i]),
            ),
{
    lemma_load_round_trip_from(lines, 0);
}

proof fn lemma_load_round_trip_from(lines: Seq<Seq<u8>>, k: int)
    requires
        0 <= k <= lines.len(),
        forall|i: int| 0 <= i < lines.len() ==> row_good(#[trigger] lines[i]),
    ensures
        first_bad_line(lines, k) == lines.len(),
        good_samples(lines, k).len() == lines.len() - k,
        forall|i: int|
            k <= i < lines.len() ==> good_samples(lines, k)[i - k] == (
            row_pixels(#[trigger] lines[i]),
            row_label(lines[i]),
            ),
    decreases lines.len() - k,
{
    if k < lines.len() {
        lemma_load_round_trip_from(lines, k + 1);
        assert(good_samples(lines, k) == seq![
            (row_pixels(lines[k]), row_label(lines[k])),
        ] + good_samples(lines, k + 1));
    }
}

/// Every sample's feature vector has length `n`.
pub open spec fn shapes_ok(data: Seq<(Vec<u8>, usize)>, n: int) -> bool {
    forall|i: int| 0 <= i < data.len() ==> (#[trigger] data[i]).0@.len() == n
}

/// Every sample's label names one of `k` classes.
pub open spec fn labels_ok(data: Seq<(Vec<u8>, usize)>, k: int) -> bool {
    forall|i: int| 0 <= i < data.len() ==> (#[trigger] data[i]).1 < k
}

/// The first sample whose feature vector does not have length `n`;
/// `data.len()` if all do.
pub open spec fn first_bad_shape(data: Seq<(Vec<u8>, usize)>, n: int, i: int) -> int
    decreases data.len() - i,
{
    if i < 0 || i >= data.len() {
        data.len() as int
    } else if data[i].0@.len() != n {
        i
    } else {
        first_bad_shape(data, n, i + 1)
    }
}

/// Every numerator of the neuron keeps headroom `b` below the `i64` range.
pub open spec fn neuron_room(n: NeuronModel, b: int) -> bool {
    &&& forall|j: int|
        0 <= j < n.weights.len() ==> -(i64::MAX - b) <= #[trigger] n.weights[j] <= i64::MAX - b
    &&& -(i64::MAX - b) <= n.bias <= i64::MAX - b
}

/// Every numerator of the classifier keeps headroom `b`: enough room for
/// updates of total magnitude `b` without overflowing an `i64`.
pub open spec fn room_ok(p: Seq<NeuronModel>, b: int) -> bool {
    forall|i: int| 0 <= i < p.len() ==> neuron_room(#[trigger] p[i], b)
}

/// The perceptron update applied to one neuron: every weight numerator
/// moves by `delta * x[j]` and the bias numerator by `delta * 255`, which
/// is exactly the real update `w += (delta/255) * (x[j]/255)`,
/// `bias += delta/255` at the weight scale of `255 * 255`.
pub open spec fn bump(n: NeuronModel, x: Seq<u8>, delta: int) -> NeuronModel {
    NeuronModel {
        weights: Seq::new(n.weights.len(), |j: int| n.weights[j] + delta * (x[j] as int)),
        bias: n.bias + delta * 255,
    }
}

/// One training visit: predict, and on a mistake move the true class's
/// neuron toward the input and the wrongly winning neuron away from it,
/// both from the same snapshot of the features. A correct prediction
/// changes nothing.
pub open spec fn visit(p: Seq<NeuronModel>, x: Seq<u8>, label: int, lr: int) -> Seq<NeuronModel> {
    let pred = spec_argmax(p, x);
    if pred == label {
        p
    } else {
        p.update(label, bump(p[label], x, lr)).update(pred, bump(p[pred], x, -lr))
    }
}

/// The classifier after the first `k` samples of one epoch, visited in
/// dataset order.
pub open spec fn epoch_upto(
    p: Seq<NeuronModel>,
    data: Seq<(Vec<u8>, usize)>,
    lr: int,
    k: int,
) -> Seq<NeuronModel>
    decreases k,
{
    if k <= 0 {
        p
    } else {
        let q = epoch_upto(p, data, lr, k - 1);
        visit(q, data[k - 1].0@, data[k - 1].1 as int, lr)
    }
}

/// The classifier after one full epoch.
pub open spec fn spec_epoch(
    p: Seq<NeuronModel>,
    data: Seq<(Vec<u8>, usize)>,
    lr: int,
) -> Seq<NeuronModel> {
    epoch_upto(p, data, lr, data.len() as int)
}

/// How many of the first `k` samples of one epoch were predicted
/// correctly, each at the moment it was visited, before any update of the
/// same pass.
pub open spec fn epoch_correct_upto(
    p: Seq<NeuronModel>,
    data: Seq<(Vec<u8>, usize)>,
    lr: int,
    k: int,
) -> int
    decreases k,
{
    if k <= 0 {
        0
    } else {
        let q = epoch_upto(p, data, lr, k - 1);
        epoch_correct_upto(p, data, lr, k - 1) + if spec_argmax(q, data[k - 1].0@) == data[k
            - 1].1 as int {
            1int
        } else {
            0int
        }
    }
}

/// The per-epoch correct count over one full epoch.
pub open spec fn spec_epoch_correct(
    p: Seq<NeuronModel>,
    data: Seq<(Vec<u8>, usize)>,
    lr: int,
) -> int {
    epoch_correct_upto(p, data, lr, data.len() as int)
}

/// The classifier after `e` full epochs.
pub open spec fn train_upto(
    p: Seq<NeuronModel>,
    data: Seq<(Vec<u8>, usize)>,
    lr: int,
    e: int,
) -> Seq<NeuronModel>
    decreases e,
{
    if e <= 0 {
        p
    } else {
        spec_epoch(train_upto(p, data, lr, e - 1), data, lr)
    }
}

/// All neurons share weight length `n`.
pub open spec fn widths_ok(p: Seq<NeuronModel>, n: int) -> bool {
    forall|i: int| 0 <= i < p.len() ==> (#[trigger] p[i]).weights.len() == n
}

/// Headroom is monotone: room for much is room for less.
pub proof fn lemma_room_mono(p: Seq<NeuronModel>, b1: int, b2: int)
    requires
        room_ok(p, b1),
        b2 <= b1,
    ensures
        room_ok(p, b2),
{
    assert forall|i: int| 0 <= i < p.len() implies neuron_room(#[trigger] p[i], b2) by {
        assert(neuron_room(p[i], b1));
    }
}

/// One visit consumes at most `lr * 255` of every numerator's headroom,
/// and keeps the neuron widths.
pub proof fn lemma_visit_room(
    p: Seq<NeuronModel>,
    x: Seq<u8>,
    label: int,
    lr: int,
    b: int,
    n: int,
)
    requires
        p.len() >= 1,
        0 <= label < p.len(),
        widths_ok(p, n),
        room_ok(p, b),
        lr >= 0,
        lr * 255 <= b,
    ensures
        room_ok(visit(p, x, label, lr), b - lr * 255),
        widths_ok(visit(p, x, label, lr), n),
        visit(p, x, label, lr).len() == p.len(),
{
    lemma_argmax_is_first_max(p, x);
    let pred = spec_argmax(p, x);
    if pred != label {
        let r = visit(p, x, label, lr);
        assert forall|i: int| 0 <= i < r.len() implies neuron_room(#[trigger] r[i], b - lr * 255)
            && r[i].weights.len() == n by {
            assert(neuron_room(p[i], b));
            if i == label || i == pred {
                let delta: int = if i == label {
                    lr
                } else {
                    -lr
                };
                let m = bump(p[i], x, delta);
                assert(r[i] == m);
                assert forall|j: int| 0 <= j < m.weights.len() implies -(i64::MAX - (b - lr * 255))
                    <= #[trigger] m.weights[j] <= i64::MAX - (b - lr * 255) by {
                    assert(m.weights[j] == p[i].weights[j] + delta * (x[j] as int));
                    assert(-(lr * 255) <= delta * (x[j] as int) <= lr * 255) by (nonlinear_arith)
                        requires
                            0 <= x[j] as int <= 255,
                            lr >= 0,
                            delta == lr || delta == -lr,
                    ;
                }
                assert(-(lr * 255) <= delta * 255 <= lr * 255) by (nonlinear_arith)
                    requires
                        lr >= 0,
                        delta == lr || delta == -lr,
                ;
            } else {
                assert(r[i] == p[i]);
                assert(neuron_room(r[i], b - lr * 255));
            }
        }
    } else {
        lemma_room_mono(p, b, b - lr * 255);
    }
}

/// Adds (or, with `negate`, subtracts) `lr` times the feature vector to the
/// neuron's weight numerators and `lr * 255` to its bias numerator: the
/// exact perceptron nudge at the fixed-point scales.
fn apply_update(nr: &mut Neuron, x: &Vec<u8>, lr: i64, negate: bool)
    requires
        old(nr).weights@.len() == x@.len(),
        lr >= 1,
        neuron_room(old(nr)@, lr * 255),
    ensures
        final(nr)@ == bump(
            old(nr)@,
            x@,
            if negate {
                -(lr as int)
            } else {
                lr as int
            },
        ),
{
    let ghost delta: int = if negate {
        -(lr as int)
    } else {
        lr as int
    };
    let ghost m0 = old(nr)@;
    proof {
        assert(lr * 255 <= i64::MAX);
    }
    let mut j: usize = 0;
    while j < nr.weights.len()
        invariant
            0 <= j <= nr.weights@.len(),
            nr.weights@.len() == x@.len(),
            lr >= 1,
            lr * 255 <= i64::MAX,
            delta == if negate {
                -(lr as int)
            } else {
                lr as int
            },
            m0.weights.len() == nr.weights@.len(),
            nr.bias == old(nr).bias,
            m0 == old(nr)@,
            neuron_room(m0, lr * 255),
            forall|q: int|
                0 <= q < j ==> (#[trigger] nr.weights@[q]) as int == m0.weights[q] + delta * (
                x@[q] as int),
            forall|q: int| j <= q < nr.weights@.len() ==> (#[trigger] nr.weights@[q]) == old(
                nr,
            ).weights@[q],
        decreases nr.weights@.len() - j,
    {
        proof {
            assert(m0.weights[j as int] == old(nr).weights@[j as int] as int);
            assert(-(lr * 255) <= delta * (x@[j as int] as int) <= lr * 255) by (nonlinear_arith)
                requires
                    0 <= x@[j as int] as int <= 255,
                    lr >= 1,
                    delta == lr as int || delta == -(lr as int),
            ;
            assert(0 <= lr * (x@[j as int] as int) <= lr * 255) by (nonlinear_arith)
                requires
                    0 <= x@[j as int] as int <= 255,
                    lr >= 1,
            ;
            assert(nr.weights@[j as int] == old(nr).weights@[j as int]);
            assert(-(i64::MAX - lr * 255) <= m0.weights[j as int] <= i64::MAX - lr * 255);
        }
        let prod: i64 = lr * (x[j] as i64);
        proof {
            assert(delta * (x@[j as int] as int) == if negate {
                -((lr as int) * (x@[j as int] as int))
            } else {
                (lr as int) * (x@[j as int] as int)
            }) by (nonlinear_arith)
                requires
                    delta == if negate {
                        -(lr as int)
                    } else {
                        lr as int
                    },
            ;
        }
        if negate {
            nr.weights[j] = nr.weights[j] - prod;
        } else {
            nr.weights[j] = nr.weights[j] + prod;
        }
        j = j + 1;
    }
    if negate {
        nr.bias = nr.bias - lr * 255;
    } else {
        nr.bias = nr.bias + lr * 255;
    }
    proof {
        assert(delta * 255 == if negate {
            -(lr * 255)
        } else {
            lr * 255
        }) by (nonlinear_arith)
            requires
                delta == if negate {
                    -(lr as int)
                } else {
                    lr as int
                },
        ;
        assert(final(nr)@.weights =~= bump(m0, x@, delta).weights);
    }
}

/// Applies the two-neuron mistake update: the true class's neuron moves
/// toward the input, the wrongly predicted one away, both computed from
/// the same snapshot of the features.
fn apply_mistake(p: &mut Perceptron, x: &Vec<u8>, label: usize, pred: usize, lr: i64)
    requires
        old(p).wf(),
        label < old(p)@.len(),
        pred < old(p)@.len(),
        label != pred,
        x@.len() == old(p).n(),
        lr >= 1,
        room_ok(old(p)@, lr * 255),
    ensures
        final(p)@ == old(p)@.update(label as int, bump(old(p)@[label as int], x@, lr as int)).update(
            pred as int,
            bump(old(p)@[pred as int], x@, -(lr as int)),
        ),
        final(p).neurons@.len() == old(p).neurons@.len(),
{
    let ghost m0 = old(p)@;
    proof {
        assert(m0[label as int] == old(p).neurons@[label as int]@);
        assert(m0[pred as int] == old(p).neurons@[pred as int]@);
        assert(neuron_room(m0[label as int], lr * 255));
        assert(m0[label as int].weights.len() == old(p).n());
    }
    let nr = &mut p.neurons[label];
    apply_update(nr, x, lr, false);
    proof {
        assert(p.neurons@ =~= old(p).neurons@.update(label as int, p.neurons@[label as int]));
        assert(p.neurons@[label as int]@ == bump(m0[label as int], x@, lr as int));
        assert(p.neurons@[pred as int]@ == m0[pred as int]);
        assert(neuron_room(m0[pred as int], lr * 255));
        assert(m0[pred as int].weights.len() == old(p).n());
    }
    let nr2 = &mut p.neurons[pred];
    apply_update(nr2, x, lr, true);
    proof {
        assert(p.neurons@[pred as int]@ == bump(m0[pred as int], x@, -(lr as int)));
        assert(final(p)@ =~= m0.update(label as int, bump(m0[label as int], x@, lr as int)).update(
            pred as int,
            bump(m0[pred as int], x@, -(lr as int)),
        ));
    }
}

/// Trains the classifier in place with the online perceptron rule: for
/// `epochs` passes over the dataset in its given order, each sample is
/// predicted with the state of that moment; a correct prediction changes
/// nothing, a mistake applies the two-neuron update. The result is the
/// correct-prediction count of each epoch, in order, each prediction
/// counted before any update of its pass.
///
/// A dataset with a feature vector of the wrong length is rejected whole
/// with `InvalidInputShape` naming the first offender, and the classifier
/// is left exactly as it was: no partial update is ever applied. The
/// headroom precondition is what the `i64` numerators force: every
/// numerator must have room for the worst case of one nudge of magnitude
/// `lr * 255` per sample visit.
pub fn train_perceptron(
    p: &mut Perceptron,
    dataset: &Vec<Sample>,
    epochs: usize,
    lr: i64,
) -> (r: Result<Vec<usize>, ModelError>)
    requires
        old(p).wf(),
        lr >= 1,
        labels_ok(dataset@, old(p).k()),
        room_ok(old(p)@, (epochs as int) * (dataset@.len() as int) * (lr as int) * 255),
    ensures
        ({
            let fbs = first_bad_shape(dataset@, old(p).n(), 0);
            &&& fbs < dataset@.len() ==> (*final(p) == *old(p) && r == Err::<Vec<usize>, ModelError>(
                (ModelError::InvalidInputShape {
                    expected: old(p).n() as usize,
                    actual: dataset@[fbs].0@.len() as usize,
                }),
            ))
            &&& fbs == dataset@.len() ==> {
                &&& final(p)@ == train_upto(old(p)@, dataset@, lr as int, epochs as int)
                &&& final(p).wf()
                &&& final(p).k() == old(p).k()
                &&& final(p).n() == old(p).n()
                &&& (r matches Ok(counts) && counts@.len() == epochs && forall|t: int|
                    0 <= t < epochs ==> (#[trigger] counts@[t]) as int == spec_epoch_correct(
                        train_upto(old(p)@, dataset@, lr as int, t),
                        dataset@,
                        lr as int,
                    ))
            }
        }),
{
    let n: usize = p.neurons[0].weights.len();
    proof {
        assert(p@[0] == p.neurons@[0]@);
        assert(n as int == old(p).n());
    }
    let mut i: usize = 0;
    while i < dataset.len()
        invariant
            0 <= i <= dataset@.len(),
            *p == *old(p),
            n as int == old(p).n(),
            first_bad_shape(dataset@, n as int, 0) == first_bad_shape(dataset@, n as int, i as int),
            forall|q: int| 0 <= q < i ==> (#[trigger] dataset@[q]).0@.len() == n,
        decreases dataset@.len() - i,
    {
        if dataset[i].0.len() != n {
            proof {
                assert(first_bad_shape(dataset@, n as int, i as int) == i as int);
            }
            return Err(ModelError::InvalidInputShape { expected: n, actual: dataset[i].0.len() });
        }
        i = i + 1;
    }
    proof {
        assert(first_bad_shape(dataset@, n as int, 0) == dataset@.len());
        assert(shapes_ok(dataset@, n as int));
    }
    let ghost p0 = old(p)@;
    let ghost d = dataset@;
    let ghost lri: int = lr as int;
    let len: usize = dataset.len();
    let mut counts: Vec<usize> = Vec::new();
    let mut e: usize = 0;
    while e < epochs
        invariant
            0 <= e <= epochs,
            p0 == old(p)@,
            d == dataset@,
            lri == lr as int,
            lr >= 1,
            len == d.len(),
            n as int <= crate::perceptron::MAX_DIM,
            p0.len() >= 1,
            labels_ok(d, p0.len() as int),
            shapes_ok(d, n as int),
            p@.len() == p0.len(),
            widths_ok(p@, n as int),
            p@ == train_upto(p0, d, lri, e as int),
            room_ok(p@, ((epochs - e) as int) * (len as int) * lri * 255),
            counts@.len() == e,
            forall|t: int|
                0 <= t < e ==> (#[trigger] counts@[t]) as int == spec_epoch_correct(
                    train_upto(p0, d, lri, t),
                    d,
                    lri,
                ),
        decreases epochs - e,
    {
        let ghost pe = train_upto(p0, d, lri, e as int);
        let mut correct: usize = 0;
        let mut s: usize = 0;
        while s < len
            invariant
                0 <= s <= len,
                e < epochs,
                p0 == old(p)@,
                d == dataset@,
                lri == lr as int,
                lr >= 1,
                len == d.len(),
                n as int <= crate::perceptron::MAX_DIM,
                p0.len() >= 1,
                labels_ok(d, p0.len() as int),
                shapes_ok(d, n as int),
                p@.len() == p0.len(),
                widths_ok(p@, n as int),
                pe == train_upto(p0, d, lri, e as int),
                p@ == epoch_upto(pe, d, lri, s as int),
                room_ok(p@, (((epochs - e) as int) * (len as int) - s as int) * lri * 255),
                correct <= s,
                correct as int == epoch_correct_upto(pe, d, lri, s as int),
            decreases len - s,
        {
            let ghost q = p@;
            let ghost budget: int = (((epochs - e) as int) * (len as int) - s as int) * lri * 255;
            proof {
                assert(p.wf());
                assert((((epochs - e) as int) * (len as int) - s as int) * lri * 255 >= 1 * lri
                    * 255 && 1 * lri * 255 == lri * 255) by (nonlinear_arith)
                    requires
                        (epochs - e) as int >= 1,
                        len as int >= s as int + 1,
                        lri >= 1,
                ;
            }
            let x = &dataset[s].0;
            let label: usize = dataset[s].1;
            let pred: usize = match p.predict(x) {
                Ok(v) => v,
                Err(_) => {
                    proof {
                        assert(false);
                    }
                    0
                },
            };
            proof {
                assert(pred as int == spec_argmax(q, d[s as int].0@));
            }
            if pred == label {
                correct = correct + 1;
                proof {
                    assert(visit(q, d[s as int].0@, label as int, lri) == q);
                    assert(p@ == epoch_upto(pe, d, lri, s as int + 1));
                    assert((((epochs - e) as int) * (len as int) - (s as int + 1)) * lri * 255
                        <= budget) by (nonlinear_arith)
                        requires
                            budget == (((epochs - e) as int) * (len as int) - s as int) * lri * 255,
                            lri >= 1,
                    ;
                    lemma_room_mono(
                        p@,
                        budget,
                        (((epochs - e) as int) * (len as int) - (s as int + 1)) * lri * 255,
                    );
                }
            } else {
                proof {
                    lemma_room_mono(p@, budget, lri * 255);
                }
                apply_mistake(p, x, label, pred, lr);
                proof {
                    assert(p@ == visit(q, d[s as int].0@, label as int, lri));
                    assert(p@ == epoch_upto(pe, d, lri, s as int + 1));
                    lemma_visit_room(q, d[s as int].0@, label as int, lri, budget, n as int);
                    assert(budget - lri * 255 >= (((epochs - e) as int) * (len as int) - (s as int
                        + 1)) * lri * 255) by (nonlinear_arith)
                        requires
                            budget == (((epochs - e) as int) * (len as int) - s as int) * lri * 255,
                    ;
                    lemma_room_mono(
                        p@,
                        budget - lri * 255,
                        (((epochs - e) as int) * (len as int) - (s as int + 1)) * lri * 255,
                    );
                }
            }
            s = s + 1;
        }
        counts.push(correct);
        proof {
            assert(p@ == spec_epoch(pe, d, lri));
            assert(p@ == train_upto(p0, d, lri, e as int + 1));
            assert(correct as int == spec_epoch_correct(train_upto(p0, d, lri, e as int), d, lri));
            assert(((epochs - e) as int) * (len as int) - len as int == ((epochs - (e + 1)) as int)
                * (len as int)) by (nonlinear_arith)
                requires
                    e < epochs,
            ;
            lemma_room_mono(
                p@,
                (((epochs - e) as int) * (len as int) - len as int) * lri * 255,
                ((epochs - (e + 1)) as int) * (len as int) * lri * 255,
            );
        }
        e = e + 1;
    }
    proof {
        assert(p.wf());
    }
    Ok(counts)
}

/// An epoch over a dataset every sample of which is already predicted
/// correctly applies no update at all: the classifier after the epoch is
/// exactly, numerator for numerator, the classifier before it. This is
/// the perceptron rule's defining asymmetry: correct predictions never
/// move weights.
pub proof fn lemma_no_mistake_no_change(
    p: Seq<NeuronModel>,
    data: Seq<(Vec<u8>, usize)>,
    lr: int,
)
    requires
        forall|s: int|
            0 <= s < data.len() ==> spec_argmax(p, (#[trigger] data[s]).0@) == data[s].1 as int,
    ensures
        spec_epoch(p, data, lr) == p,
{
    lemma_epoch_upto_no_mistake(p, data, lr, data.len() as int);
}

proof fn lemma_epoch_upto_no_mistake(
    p: Seq<NeuronModel>,
    data: Seq<(Vec<u8>, usize)>,
    lr: int,
    k: int,
)
    requires
        0 <= k <= data.len(),
        forall|s: int|
            0 <= s < data.len() ==> spec_argmax(p, (#[trigger] data[s]).0@) == data[s].1 as int,
    ensures
        epoch_upto(p, data, lr, k) == p,
    decreases k,
{
    if k > 0 {
        lemma_epoch_upto_no_mistake(p, data, lr, k - 1);
    }
}

/// How many of the first `k` samples the fixed classifier `p` predicts
/// correctly.
pub open spec fn correct_upto(p: Seq<NeuronModel>, data: Seq<(Vec<u8>, usize)>, k: int) -> int
    decreases k,
{
    if k <= 0 {
        0
    } else {
        correct_upto(p, data, k - 1) + if spec_argmax(p, data[k - 1].0@) == data[k - 1].1 as int {
            1int
        } else {
            0int
        }
    }
}

/// How many of the first `k` samples carry label `c`.
pub open spec fn class_total_upto(data: Seq<(Vec<u8>, usize)>, c: int, k: int) -> int
    decreases k,
{
    if k <= 0 {
        0
    } else {
        class_total_upto(data, c, k - 1) + if data[k - 1].1 as int == c {
            1int
        } else {
            0int
        }
    }
}

/// How many of the first `k` samples carry label `c` and are predicted
/// correctly by the fixed classifier `p`.
pub open spec fn class_correct_upto(
    p: Seq<NeuronModel>,
    data: Seq<(Vec<u8>, usize)>,
    c: int,
    k: int,
) -> int
    decreases k,
{
    if k <= 0 {
        0
    } else {
        class_correct_upto(p, data, c, k - 1) + if data[k - 1].1 as int == c && spec_argmax(
            p,
            data[k - 1].0@,
        ) == data[k - 1].1 as int {
            1int
        } else {
            0int
        }
    }
}

/// The exact outcome of evaluating a classifier against a dataset:
/// correct predictions over the whole dataset and per class. Accuracies
/// are the exact ratios `correct / total` and
/// `per_class_correct[c] / per_class_total[c]`; the counts are returned
/// so no precision is lost.
#[derive(Debug, PartialEq, Eq)]
pub struct TrainingReport {
    pub correct: usize,
    pub total: usize,
    pub per_class_correct: Vec<usize>,
    pub per_class_total: Vec<usize>,
}

/// Evaluates the classifier against a dataset without mutating anything:
/// how many samples, overall and of each class, its `predict` gets right.
/// An empty dataset is rejected with `EmptyDataset` (never a division of
/// zero by zero), and a feature vector of the wrong length with
/// `InvalidInputShape` naming the first offender.
pub fn evaluate(p: &Perceptron, dataset: &Vec<Sample>) -> (r: Result<TrainingReport, ModelError>)
    requires
        p.wf(),
        labels_ok(dataset@, p.k()),
    ensures
        dataset@.len() == 0 <==> r == Err::<TrainingReport, ModelError>(ModelError::EmptyDataset),
        ({
            let fbs = first_bad_shape(dataset@, p.n(), 0);
            &&& (dataset@.len() > 0 && fbs < dataset@.len()) ==> r == Err::<
                TrainingReport,
                ModelError,
            >(
                (ModelError::InvalidInputShape {
                    expected: p.n() as usize,
                    actual: dataset@[fbs].0@.len() as usize,
                }),
            )
            &&& (dataset@.len() > 0 && fbs == dataset@.len()) ==> (r matches Ok(rep) && {
                &&& rep.total == dataset@.len()
                &&& rep.correct as int == correct_upto(p@, dataset@, dataset@.len() as int)
                &&& rep.per_class_correct@.len() == p.k()
                &&& rep.per_class_total@.len() == p.k()
                &&& forall|c: int|
                    0 <= c < p.k() ==> (#[trigger] rep.per_class_total@[c]) as int
                        == class_total_upto(dataset@, c, dataset@.len() as int)
                &&& forall|c: int|
                    0 <= c < p.k() ==> (#[trigger] rep.per_class_correct@[c]) as int
                        == class_correct_upto(p@, dataset@, c, dataset@.len() as int)
            })
        }),
{
    if dataset.len() == 0 {
        return Err(ModelError::EmptyDataset);
    }
    let n: usize = p.neurons[0].weights.len();
    proof {
        assert(p@[0] == p.neurons@[0]@);
        assert(n as int == p.n());
    }
    let mut i: usize = 0;
    while i < dataset.len()
        invariant
            0 <= i <= dataset@.len(),
            n as int == p.n(),
            first_bad_shape(dataset@, n as int, 0) == first_bad_shape(dataset@, n as int, i as int),
            forall|q: int| 0 <= q < i ==> (#[trigger] dataset@[q]).0@.len() == n,
        decreases dataset@.len() - i,
    {
        if dataset[i].0.len() != n {
            proof {
                assert(first_bad_shape(dataset@, n as int, i as int) == i as int);
            }
            return Err(ModelError::InvalidInputShape { expected: n, actual: dataset[i].0.len() });
        }
        i = i + 1;
    }
    proof {
        assert(first_bad_shape(dataset@, n as int, 0) == dataset@.len());
    }
    let k: usize = p.neurons.len();
    let len: usize = dataset.len();
    let mut per_class_correct: Vec<usize> = vec![0usize; k];
    let mut per_class_total: Vec<usize> = vec![0usize; k];
    let mut correct: usize = 0;
    let mut s: usize = 0;
    while s < len
        invariant
            0 <= s <= len,
            len == dataset@.len(),
            len >= 1,
            p.wf(),
            k == p.k(),
            n as int == p.n(),
            labels_ok(dataset@, p.k()),
            forall|q: int| 0 <= q < len ==> (#[trigger] dataset@[q]).0@.len() == n,
            per_class_correct@.len() == k,
            per_class_total@.len() == k,
            correct <= s,
            correct as int == correct_upto(p@, dataset@, s as int),
            forall|c: int| 0 <= c < k ==> (#[trigger] per_class_total@[c]) <= s,
            forall|c: int| 0 <= c < k ==> (#[trigger] per_class_correct@[c]) <= s,
            forall|c: int|
                0 <= c < k ==> (#[trigger] per_class_total@[c]) as int == class_total_upto(
                    dataset@,
                    c,
                    s as int,
                ),
            forall|c: int|
                0 <= c < k ==> (#[trigger] per_class_correct@[c]) as int == class_correct_upto(
                    p@,
                    dataset@,
                    c,
                    s as int,
                ),
        decreases len - s,
    {
        let x = &dataset[s].0;
        let label: usize = dataset[s].1;
        let pred: usize = match p.predict(x) {
            Ok(v) => v,
            Err(_) => {
                proof {
                    assert(false);
                }
                0
            },
        };
        per_class_total[label] = per_class_total[label] + 1;
        if pred == label {
            correct = correct + 1;
            per_class_correct[label] = per_class_correct[label] + 1;
        }
        s = s + 1;
    }
    Ok(TrainingReport { correct, total: len, per_class_correct, per_class_total })
}

/// The exact percentage with two decimal digits, rounded down, that
/// `correct` out of `total` is: `floor(correct * 10000 / total)`
/// hundredths of a percent.
pub fn accuracy_centipercent(correct: usize, total: usize) -> (r: u64)
    requires
        total >= 1,
        correct <= total,
    ensures
        r as int == (correct as int * 10000) / (total as int),
        r <= 10000,
{
    proof {
        vstd::arithmetic::div_mod::lemma_div_is_ordered(
            correct as int * 10000,
            total as int * 10000,
            total as int,
        );
        vstd::arithmetic::div_mod::lemma_div_by_multiple(10000, total as int);
        assert(total as int * 10000 == 10000 * (total as int)) by (nonlinear_arith);
        assert((correct as int * 10000) / (total as int) >= 0) by (nonlinear_arith)
            requires
                correct >= 0,
                total >= 1,
        ;
    }
    (((correct as u128) * 10000) / (total as u128)) as u64
}

} // verus!
