//! Parameters of the estimators, the methods that use them, and the
//! outcome reported for a finished task.
use vstd::prelude::*;
use crate::omr::OmrError;

verus! {

/// Parameters of the projection sweep.
#[derive(Clone, Copy, Debug, PartialEq, Eq, Structural)]
pub struct ProjectionParams {
    /// Half width of the search window, in degrees.
    pub projection_max_angle: u16,
    /// Sweep step, in micro-degrees.
    pub projection_angle_step: u32,
    /// Width bound of the downscaled image; zero or less for none.
    pub projection_max_width: i32,
    /// Height bound of the downscaled image; zero or less for none.
    pub projection_max_height: i32,
}

/// Parameters of line detection on the source image, in pixels.
#[derive(Clone, Copy, Debug, PartialEq, Eq, Structural)]
pub struct EdgesDetectionParams {
    pub min_line_length: u32,
    pub max_line_gap: u32,
}

/// Parameters of line detection on the log-magnitude spectrum, in pixels.
#[derive(Clone, Copy, Debug, PartialEq, Eq, Structural)]
pub struct FourierTransformParams {
    pub min_line_length: u32,
    pub max_line_gap: u32,
}

/// Which estimators a task runs.
#[derive(Clone, Copy, Debug, PartialEq, Eq, Structural)]
pub enum Method {
    /// Projection sweep, corroborated by line detection when in doubt.
    Default,
    ProjectionOnly,
    EdgesDetectionOnly,
    FourierTransformOnly,
}

impl Method {
    pub open spec fn spec_needs_projection(self) -> bool {
        self == Method::Default || self == Method::ProjectionOnly
    }

    pub open spec fn spec_needs_edges(self) -> bool {
        self == Method::Default || self == Method::EdgesDetectionOnly
    }

    pub open spec fn spec_needs_fourier(self) -> bool {
        self == Method::FourierTransformOnly
    }

    /// Whether this method runs the projection sweep.
    pub fn needs_projection(&self) -> (r: bool)
        ensures
            r == self.spec_needs_projection(),
    {
        match self {
            Method::Default | Method::ProjectionOnly => true,
            _ => false,
        }
    }

    /// Whether this method runs line detection on the source image.
    pub fn needs_edges(&self) -> (r: bool)
        ensures
            r == self.spec_needs_edges(),
    {
        match self {
            Method::Default | Method::EdgesDetectionOnly => true,
            _ => false,
        }
    }

    /// Whether this method runs line detection on the spectrum.
    pub fn needs_fourier(&self) -> (r: bool)
        ensures
            r == self.spec_needs_fourier(),
    {
        match self {
            Method::FourierTransformOnly => true,
            _ => false,
        }
    }
}

/// The parameters given for a task, each group optional.
#[derive(Debug)]
pub struct Params {
    projection: Option<ProjectionParams>,
    edges: Option<EdgesDetectionParams>,
    fourier: Option<FourierTransformParams>,
}

impl Params {
    pub closed spec fn spec_projection(&self) -> Option<ProjectionParams> {
        self.projection
    }

    pub closed spec fn spec_edges(&self) -> Option<EdgesDetectionParams> {
        self.edges
    }

    pub closed spec fn spec_fourier(&self) -> Option<FourierTransformParams> {
        self.fourier
    }

    /// No parameters yet.
    pub fn new() -> (r: Params)
        ensures
            r.spec_projection() is None,
            r.spec_edges() is None,
            r.spec_fourier() is None,
    {
        Params { projection: None, edges: None, fourier: None }
    }

    /// A copy with the same parameters.
    pub fn clone(&self) -> (r: Params)
        ensures
            r.spec_projection() == self.spec_projection(),
            r.spec_edges() == self.spec_edges(),
            r.spec_fourier() == self.spec_fourier(),
    {
        Params { projection: self.projection, edges: self.edges, fourier: self.fourier }
    }

    pub fn set_projection_params(&mut self, params: ProjectionParams)
        ensures
            final(self).spec_projection() == Some(params),
            final(self).spec_edges() == old(self).spec_edges(),
            final(self).spec_fourier() == old(self).spec_fourier(),
    {
        self.projection = Some(params);
    }

    pub fn get_projection_params(&self) -> (r: &Option<ProjectionParams>)
        ensures
            *r == self.spec_projection(),
    {
        &self.projection
    }

    pub fn set_edges_params(&mut self, params: EdgesDetectionParams)
        ensures
            final(self).spec_edges() == Some(params),
            final(self).spec_projection() == old(self).spec_projection(),
            final(self).spec_fourier() == old(self).spec_fourier(),
    {
        self.edges = Some(params);
    }

    pub fn get_edges_params(&self) -> (r: &Option<EdgesDetectionParams>)
        ensures
            *r == self.spec_edges(),
    {
        &self.edges
    }

    pub fn set_fourier_params(&mut self, params: FourierTransformParams)
        ensures
            final(self).spec_fourier() == Some(params),
            final(self).spec_projection() == old(self).spec_projection(),
            final(self).spec_edges() == old(self).spec_edges(),
    {
        self.fourier = Some(params);
    }

    pub fn get_fourier_params(&self) -> (r: &Option<FourierTransformParams>)
        ensures
            *r == self.spec_fourier(),
    {
        &self.fourier
    }

    /// Accepts the parameters for `method` when every group that it uses is
    /// given and the projection step is positive; refuses them otherwise.
    pub fn check_for(&self, method: Method) -> (r: Result<(), OmrError>)
        ensures
            r is Ok <==> {
                &&& method.spec_needs_projection() ==> (self.spec_projection() is Some
                    && self.spec_projection()->0.projection_angle_step > 0)
                &&& method.spec_needs_edges() ==> self.spec_edges() is Some
                &&& method.spec_needs_fourier() ==> self.spec_fourier() is Some
            },
            r is Err ==> r->Err_0 == OmrError::InvalidConfiguration,
    {
        if method.needs_projection() {
            match &self.projection {
                None => return Err(OmrError::InvalidConfiguration),
                Some(p) => {
                    if p.projection_angle_step == 0 {
                        return Err(OmrError::InvalidConfiguration);
                    }
                },
            }
        }
        if method.needs_edges() && self.edges.is_none() {
            return Err(OmrError::InvalidConfiguration);
        }
        if method.needs_fourier() && self.fourier.is_none() {
            return Err(OmrError::InvalidConfiguration);
        }
        Ok(())
    }
}

/// Final status of a task, as reported when it completes.
#[derive(Clone, Copy, Debug, PartialEq, Eq, Structural)]
pub enum TaskStatus {
    /// Corrected, with a trusted angle.
    Finished,
    /// Corrected, but the angle asks for a manual check.
    Debatable,
    /// The correction failed; no output was written.
    Error,
}

impl TaskStatus {
    /// Name of the status in completion notices.
    pub fn label(&self) -> (r: &'static str)
        ensures
            *self == TaskStatus::Finished ==> r@ == "finished"@,
            *self == TaskStatus::Debatable ==> r@ == "debatable"@,
            *self == TaskStatus::Error ==> r@ == "error"@,
    {
        match self {
            TaskStatus::Finished => "finished",
            TaskStatus::Debatable => "debatable",
            TaskStatus::Error => "error",
        }
    }
}

/// Status reported for a correction that gave `outcome`: the angle and the
/// manual-check flag, or an error.
pub fn task_status(outcome: &Result<(i64, bool), OmrError>) -> (r: TaskStatus)
    ensures
        r == match outcome {
            Ok((_, true)) => TaskStatus::Debatable,
            Ok((_, false)) => TaskStatus::Finished,
            Err(_) => TaskStatus::Error,
        },
{
    match outcome {
        Ok((_, needs_check)) => if *needs_check {
            TaskStatus::Debatable
        } else {
            TaskStatus::Finished
        },
        Err(_) => TaskStatus::Error,
    }
}

/// Processor facts shown to the user.
#[derive(Clone, Debug, Default)]
pub struct CpuData {
    pub chip_name: String,
    pub physical_core_counts: usize,
    pub max_thread_counts: usize,
}

impl CpuData {
    pub fn new(chip_name: String, physical_core_counts: usize, max_thread_counts: usize) -> (r: CpuData)
        ensures
            r.chip_name@ == chip_name@,
            r.physical_core_counts == physical_core_counts,
            r.max_thread_counts == max_thread_counts,
    {
        CpuData { chip_name, physical_core_counts, max_thread_counts }
    }
}

/// Hardware facts shown to the user.
#[derive(Clone, Debug, Default)]
pub struct SystemHardwareData {
    pub cpu: CpuData,
}

/// Image decoding modes that a caller may ask for.
#[derive(Clone, Copy, Debug, PartialEq, Eq, Structural)]
pub enum ImReadFlags {
    AnyColor,
    AnyDepth,
    Color,
    Grayscale,
    IgnoreOrientation,
    LoadGDal,
    ReducedColor2,
    ReducedColor4,
    ReducedColor8,
    ReducedGrayscale2,
    ReducedGrayscale4,
    ReducedGrayscale8,
    Unchanged,
}

/// Every byte of `s` is an ASCII digit.
pub open spec fn all_digits(s: Seq<u8>) -> bool {
    forall|i: int| 0 <= i < s.len() ==> 48 <= #[trigger] s[i] <= 57
}

/// Value of a string of ASCII digits, most significant first.
pub open spec fn digits_value(s: Seq<u8>) -> int
    decreases s.len(),
{
    if s.len() == 0 {
        0
    } else {
        digits_value(s.drop_last()) * 10 + (s.last() - 48)
    }
}

/// Value of a decimal integer: an optional `+` or `-`, then one or more
/// digits. `None` for any other text.
pub open spec fn decimal_value(s: Seq<u8>) -> Option<int> {
    if s.len() > 0 && (s[0] == 45 || s[0] == 43) {
        let rest = s.skip(1);
        if rest.len() > 0 && all_digits(rest) {
            Some(if s[0] == 45 { -digits_value(rest) } else { digits_value(rest) })
        } else {
            None
        }
    } else if s.len() > 0 && all_digits(s) {
        Some(digits_value(s))
    } else {
        None
    }
}

/// `decimal_value(s)` when it fits `i32`.
pub open spec fn decimal_i32(s: Seq<u8>) -> Option<i32> {
    match decimal_value(s) {
        Some(v) => if i32::MIN <= v <= i32::MAX {
            Some(v as i32)
        } else {
            None
        },
        None => None,
    }
}

/// Number of bytes `x` in `s`.
pub open spec fn count_x(s: Seq<u8>) -> nat
    decreases s.len(),
{
    if s.len() == 0 {
        0
    } else {
        count_x(s.drop_last()) + if s.last() == 120 { 1nat } else { 0nat }
    }
}

/// Value of a resolution `<width>x<height>`: exactly one `x`, and a decimal
/// `i32` on each side of it.
pub open spec fn resolution_value(s: Seq<u8>) -> Option<(i32, i32)> {
    if count_x(s) == 1 {
        let p = choose|p: int| 0 <= p < s.len() && s[p] == 120;
        match (decimal_i32(s.take(p)), decimal_i32(s.skip(p + 1))) {
            (Some(w), Some(h)) => Some((w, h)),
            _ => None,
        }
    } else {
        None
    }
}

proof fn lemma_digits_prefix(s: Seq<u8>, k: int)
    requires
        all_digits(s),
        0 <= k <= s.len(),
    ensures
        digits_value(s.take(k)) <= digits_value(s),
        0 <= digits_value(s.take(k)),
    decreases s.len() - k,
{
    lemma_digits_nonneg(s.take(k));
    if k < s.len() {
        let t = s.take(k + 1);
        assert(t.drop_last() =~= s.take(k));
        assert(t.last() == s[k]);
        lemma_digits_prefix(s, k + 1);
    } else {
        assert(s.take(k) =~= s);
    }
}

proof fn lemma_digits_nonneg(s: Seq<u8>)
    requires
        all_digits(s),
    ensures
        0 <= digits_value(s),
    decreases s.len(),
{
    if s.len() > 0 {
        let t = s.drop_last();
        assert forall|i: int| 0 <= i < t.len() implies 48 <= #[trigger] t[i] <= 57 by {
            assert(t[i] == s[i]);
        }
        lemma_digits_nonneg(t);
        assert(s[s.len() - 1] >= 48);
    }
}

/// Parses an optionally signed decimal `i32`; see `decimal_i32`.
pub fn parse_decimal_i32(s: &[u8]) -> (r: Option<i32>)
    ensures
        r == decimal_i32(s@),
{
    let n = s.len();
    let mut start: usize = 0;
    let mut negative = false;
    if n > 0 && (s[0] == 45 || s[0] == 43) {
        start = 1;
        negative = s[0] == 45;
    }
    if start >= n {
        proof {
            if s@.len() > 0 && !(s@[0] == 45 || s@[0] == 43) {
                assert(false);
            }
        }
        return None;
    }
    let ghost body = s@.skip(start as int);
    let mut value: i64 = 0;
    let mut i: usize = start;
    while i < n
        invariant
            n == s@.len(),
            start <= i <= n,
            start < n,
            body == s@.skip(start as int),
            start == 1 ==> (s@[0] == 45 || s@[0] == 43),
            start == 0 ==> !(s@[0] == 45 || s@[0] == 43),
            start <= 1,
            negative == (start == 1 && s@[0] == 45),
            all_digits(body.take(i - start)),
            value == digits_value(body.take(i - start)),
            0 <= value <= 2147483648,
        decreases n - i,
    {
        let b = s[i];
        let ghost k = (i - start) as int;
        proof {
            assert(body.take(k + 1).drop_last() =~= body.take(k));
            assert(body[k] == b);
        }
        if b < 48 || b > 57 {
            proof {
                assert(!all_digits(body)) by {
                    assert(body[k] == b);
                }
                assert(start == 0 ==> body =~= s@);
            }
            return None;
        }
        value = value * 10 + (b - 48) as i64;
        proof {
            assert(all_digits(body.take(k + 1))) by {
                assert forall|j: int| 0 <= j < k + 1 implies 48 <= #[trigger] body.take(k + 1)[j] <= 57 by {
                    if j < k {
                        assert(body.take(k + 1)[j] == body.take(k)[j]);
                    }
                }
            }
        }
        if value > 2147483648 {
            proof {
                assert(body.take(k + 1) =~= body.take(k + 1));
                if all_digits(body) {
                    lemma_digits_prefix(body, k + 1);
                }
                assert(start == 0 ==> body =~= s@);
            }
            return None;
        }
        i = i + 1;
    }
    proof {
        assert(body.take(n - start) =~= body);
        assert(start == 0 ==> body =~= s@);
    }
    if negative {
        Some((-value) as i32)
    } else if value > 2147483647 {
        None
    } else {
        Some(value as i32)
    }
}

/// Parses a resolution `<width>x<height>` such as `248x230`; see
/// `resolution_value`. Malformed text is a configuration error.
pub fn parse_resolution(text: &[u8]) -> (r: Result<(i32, i32), OmrError>)
    ensures
        match resolution_value(text@) {
            Some(v) => r == Ok::<(i32, i32), OmrError>(v),
            None => r == Err::<(i32, i32), OmrError>(OmrError::InvalidConfiguration),
        },
{
    let n = text.len();
    let mut found: Option<usize> = None;
    let mut i: usize = 0;
    while i < n
        invariant
            n == text@.len(),
            i <= n,
            match found {
                None => count_x(text@.take(i as int)) == 0,
                Some(p) => count_x(text@.take(i as int)) == 1 && p < i && text@[p as int] == 120,
            },
        decreases n - i,
    {
        proof {
            assert(text@.take(i as int + 1).drop_last() =~= text@.take(i as int));
            assert(text@.take(i as int + 1).last() == text@[i as int]);
        }
        if text[i] == 120 {
            if found.is_some() {
                proof {
                    lemma_count_x_prefix(text@, i as int + 1);
                }
                return Err(OmrError::InvalidConfiguration);
            }
            found = Some(i);
        }
        i = i + 1;
    }
    proof {
        assert(text@.take(n as int) =~= text@);
    }
    match found {
        None => Err(OmrError::InvalidConfiguration),
        Some(p) => {
            proof {
                lemma_single_x(text@, p as int);
            }
            let (left, right_with_x) = text.split_at(p);
            let (_, right) = right_with_x.split_at(1);
            proof {
                assert(left@ =~= text@.take(p as int));
                assert(right@ =~= text@.skip(p as int + 1));
            }
            match (parse_decimal_i32(left), parse_decimal_i32(right)) {
                (Some(w), Some(h)) => Ok((w, h)),
                _ => Err(OmrError::InvalidConfiguration),
            }
        },
    }
}

proof fn lemma_count_x_prefix(s: Seq<u8>, k: int)
    requires
        0 <= k <= s.len(),
    ensures
        count_x(s.take(k)) <= count_x(s),
    decreases s.len() - k,
{
    if k < s.len() {
        assert(s.take(k + 1).drop_last() =~= s.take(k));
        lemma_count_x_prefix(s, k + 1);
    } else {
        assert(s.take(k) =~= s);
    }
}

proof fn lemma_single_x(s: Seq<u8>, p: int)
    requires
        count_x(s) == 1,
        0 <= p < s.len(),
        s[p] == 120,
    ensures
        forall|q: int| 0 <= q < s.len() && s[q] == 120 ==> q == p,
    decreases s.len(),
{
    assert forall|q: int| 0 <= q < s.len() && s[q] == 120 implies q == p by {
        if q != p {
            lemma_two_x(s, p, q);
        }
    }
}

proof fn lemma_two_x(s: Seq<u8>, p: int, q: int)
    requires
        0 <= p < s.len(),
        0 <= q < s.len(),
        p != q,
        s[p] == 120,
        s[q] == 120,
    ensures
        count_x(s) >= 2,
    decreases s.len(),
{
    let t = s.drop_last();
    let last = s.len() - 1;
    if p == last || q == last {
        let other = if p == last { q } else { p };
        assert(t[other] == 120);
        lemma_count_x_pos(t, other);
    } else {
        assert(t[p] == 120 && t[q] == 120);
        lemma_two_x(t, p, q);
    }
}

proof fn lemma_count_x_pos(s: Seq<u8>, p: int)
    requires
        0 <= p < s.len(),
        s[p] == 120,
    ensures
        count_x(s) >= 1,
    decreases s.len(),
{
    if p < s.len() - 1 {
        assert(s.drop_last()[p] == s[p]);
        lemma_count_x_pos(s.drop_last(), p);
    }
}

} // verus!
