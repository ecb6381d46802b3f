//! The version bump state machine: from a semantic version and a bump level to
//! the next version, or to an error that names the offending prerelease text.

use vstd::prelude::*;

verus! {

/// A semantic version `major.minor.patch[-pre][+build]` held as plain values.
#[derive(Clone, Debug, PartialEq, Eq)]
pub struct SemanticVersion {
    pub major: u64,
    pub minor: u64,
    pub patch: u64,
    pub pre: String,
    pub build: String,
}

/// The mathematical model of a `SemanticVersion`.
pub struct VersionView {
    pub major: u64,
    pub minor: u64,
    pub patch: u64,
    pub pre: Seq<char>,
    pub build: Seq<char>,
}

impl View for SemanticVersion {
    type V = VersionView;

    open spec fn view(&self) -> VersionView {
        VersionView {
            major: self.major,
            minor: self.minor,
            patch: self.patch,
            pre: self.pre@,
            build: self.build@,
        }
    }
}

pub open spec fn is_digit(c: char) -> bool {
    '0' <= c && c <= '9'
}

pub open spec fn digit_value(c: char) -> nat {
    (c as u32 - '0' as u32) as nat
}

pub open spec fn all_digits(d: Seq<char>) -> bool {
    forall|i: int| 0 <= i < d.len() ==> is_digit(#[trigger] d[i])
}

/// The number that a run of decimal digits denotes.
pub open spec fn digits_value(d: Seq<char>) -> nat
    decreases d.len(),
{
    if d.len() == 0 {
        0
    } else {
        digits_value(d.drop_last()) * 10 + digit_value(d.last())
    }
}

/// `d` is a non-empty run of decimal digits whose value fits in a `u64`.
pub open spec fn is_u64_text(d: Seq<char>) -> bool {
    d.len() > 0 && all_digits(d) && digits_value(d) <= u64::MAX
}

pub open spec fn has_no_dot(s: Seq<char>) -> bool {
    forall|i: int| 0 <= i < s.len() ==> #[trigger] s[i] != '.'
}

/// `s` reads `<stage>.<number>` with its first dot at `i`: the stage before it
/// is non-empty, and all that follows is a number that fits in a `u64`.
pub open spec fn tag_dot_at(s: Seq<char>, i: int) -> bool {
    &&& 0 < i < s.len()
    &&& s[i] == '.'
    &&& has_no_dot(s.subrange(0, i))
    &&& is_u64_text(s.subrange(i + 1, s.len() as int))
}

/// The stage and number of a prerelease of the form `<stage>.<number>`, or
/// `None` where the text has another form.
pub open spec fn prerelease_tag(s: Seq<char>) -> Option<(Seq<char>, u64)> {
    if exists|i: int| tag_dot_at(s, i) {
        let i = choose|i: int| tag_dot_at(s, i);
        Some((s.subrange(0, i), digits_value(s.subrange(i + 1, s.len() as int)) as u64))
    } else {
        None
    }
}

proof fn lemma_digits_value_prefix(d: Seq<char>, m: int)
    requires
        0 <= m <= d.len(),
        all_digits(d),
    ensures
        digits_value(d.subrange(0, m)) <= digits_value(d),
    decreases d.len(),
{
    if m < d.len() {
        assert(d.drop_last().subrange(0, m) =~= d.subrange(0, m));
        lemma_digits_value_prefix(d.drop_last(), m);
    } else {
        assert(d.subrange(0, m) =~= d);
    }
}

/// Reads `s[from..]` as a decimal number that fits in a `u64`.
fn parse_u64_from(s: &str, from: usize) -> (r: Option<u64>)
    requires
        from <= s@.len(),
    ensures
        match r {
            Some(n) => is_u64_text(s@.subrange(from as int, s@.len() as int))
                && n == digits_value(s@.subrange(from as int, s@.len() as int)),
            None => !is_u64_text(s@.subrange(from as int, s@.len() as int)),
        },
{
    let len = s.unicode_len();
    if from == len {
        return None;
    }
    let ghost full = s@.subrange(from as int, len as int);
    let mut value: u64 = 0;
    let mut k: usize = from;
    while k < len
        invariant
            from <= k <= len,
            len == s@.len(),
            full == s@.subrange(from as int, len as int),
            all_digits(s@.subrange(from as int, k as int)),
            value == digits_value(s@.subrange(from as int, k as int)),
        decreases len - k,
    {
        let c = s.get_char(k);
        if !('0' <= c && c <= '9') {
            assert(full[k - from] == c);
            return None;
        }
        let d: u64 = (c as u32 - '0' as u32) as u64;
        let ghost prefix = s@.subrange(from as int, k as int + 1);
        assert(prefix.drop_last() =~= s@.subrange(from as int, k as int));
        assert(prefix.last() == c);
        assert(all_digits(prefix)) by {
            assert forall|i: int| 0 <= i < prefix.len() implies is_digit(#[trigger] prefix[i]) by {
                if i < prefix.len() - 1 {
                    assert(prefix[i] == s@.subrange(from as int, k as int)[i]);
                }
            }
        }
        if value > (u64::MAX - d) / 10 {
            assert(value * 10 + d > u64::MAX) by (nonlinear_arith)
                requires
                    value > (u64::MAX - d) / 10,
                    d <= 9,
            ;
            proof {
                if all_digits(full) {
                    assert(full.subrange(0, k + 1 - from) =~= prefix);
                    lemma_digits_value_prefix(full, k + 1 - from);
                }
            }
            return None;
        }
        assert(value * 10 + d <= u64::MAX) by (nonlinear_arith)
            requires
                value <= (u64::MAX - d) / 10,
                d <= 9,
        ;
        value = value * 10 + d;
        k = k + 1;
    }
    assert(s@.subrange(from as int, k as int) =~= full);
    Some(value)
}

/// A prerelease of the form `<stage>.<number>`, split into its parts.
pub struct PrereleaseTag {
    pub stage: String,
    pub number: u64,
}

/// Splits a prerelease of the form `<stage>.<number>` at its first dot.
fn parse_prerelease(pre: &str) -> (r: Option<PrereleaseTag>)
    ensures
        match prerelease_tag(pre@) {
            Some((stage, number)) => r is Some && r->0.stage@ == stage && r->0.number == number,
            None => r is None,
        },
{
    let len = pre.unicode_len();
    let mut i: usize = 0;
    while i < len && pre.get_char(i) != '.'
        invariant
            i <= len,
            len == pre@.len(),
            has_no_dot(pre@.subrange(0, i as int)),
        decreases len - i,
    {
        assert(pre@.subrange(0, i as int + 1) =~= pre@.subrange(0, i as int).push(pre@[i as int]));
        i = i + 1;
    }
    // No other position can be the first dot of a well-formed tag.
    assert forall|j: int| tag_dot_at(pre@, j) implies j == i by {
        if j < i {
            assert(pre@.subrange(0, i as int)[j] == pre@[j]);
        } else if j > i {
            assert(pre@.subrange(0, j)[i as int] == pre@[i as int]);
        }
    }
    if i == 0 || i == len {
        return None;
    }
    match parse_u64_from(pre, i + 1) {
        Some(number) => {
            assert(tag_dot_at(pre@, i as int));
            let stage = String::from_str(pre.substring_char(0, i));
            Some(PrereleaseTag { stage, number })
        },
        None => None,
    }
}

pub open spec fn digit_char(d: nat) -> char {
    if d == 0 {
        '0'
    } else if d == 1 {
        '1'
    } else if d == 2 {
        '2'
    } else if d == 3 {
        '3'
    } else if d == 4 {
        '4'
    } else if d == 5 {
        '5'
    } else if d == 6 {
        '6'
    } else if d == 7 {
        '7'
    } else if d == 8 {
        '8'
    } else {
        '9'
    }
}

/// The decimal text of `n`, without leading zeros.
pub open spec fn decimal_text(n: nat) -> Seq<char>
    decreases n,
{
    if n < 10 {
        seq![digit_char(n)]
    } else {
        decimal_text(n / 10).push(digit_char(n % 10))
    }
}

fn digit_str(d: u64) -> (r: &'static str)
    requires
        d < 10,
    ensures
        r@ == seq![digit_char(d as nat)],
{
    proof {
        reveal_strlit("0");
        reveal_strlit("1");
        reveal_strlit("2");
        reveal_strlit("3");
        reveal_strlit("4");
        reveal_strlit("5");
        reveal_strlit("6");
        reveal_strlit("7");
        reveal_strlit("8");
        reveal_strlit("9");
    }
    match d {
        0 => "0",
        1 => "1",
        2 => "2",
        3 => "3",
        4 => "4",
        5 => "5",
        6 => "6",
        7 => "7",
        8 => "8",
        _ => "9",
    }
}

/// Appends the decimal text of `n` to `out`.
fn append_decimal(out: &mut String, n: u64)
    ensures
        final(out)@ == old(out)@ + decimal_text(n as nat),
    decreases n,
{
    if n >= 10 {
        append_decimal(out, n / 10);
    }
    out.append(digit_str(n % 10));
    assert(decimal_text(n as nat) == if n < 10 {
        seq![digit_char(n as nat)]
    } else {
        decimal_text((n / 10) as nat).push(digit_char((n % 10) as nat))
    });
    assert(old(out)@ + decimal_text(n as nat) =~= final(out)@);
}

/// How a version is to be bumped.
#[derive(Clone, Copy, Debug, PartialEq, Eq)]
pub enum BumpLevel {
    /// `x.y.z -> x+1.0.0`
    Major,
    /// `x.y.z -> x.y+1.0`
    Minor,
    /// `x.y.z -> x.y.z+1`
    Patch,
    /// `x.y.z-<stage>.n -> x.y.z-<stage>.n+1`
    PreRelease,
    /// `alpha.n -> beta.0`, `beta.n -> rc.0`, `rc.n -> ` (a release)
    PromotePreRelease,
    /// `PreRelease` on a prerelease version, `Patch` on a release version
    PatchOrPreRelease,
}

/// The arguments of the version bump command.
pub struct CommandArgs {
    pub level: BumpLevel,
}

/// Why a version could not be bumped. Each variant holds the prerelease text
/// as it stood in the version.
#[derive(Clone, Debug, PartialEq, Eq)]
pub enum BumpError {
    /// The prerelease does not read `<stage>.<number>`.
    MalformedPrerelease(String),
    /// The prerelease reads `<stage>.<number>`, but its stage is none of
    /// `alpha`, `beta` and `rc`, so it cannot be promoted.
    UnsupportedStage(String),
}

pub enum BumpErrorView {
    MalformedPrerelease(Seq<char>),
    UnsupportedStage(Seq<char>),
}

impl View for BumpError {
    type V = BumpErrorView;

    open spec fn view(&self) -> BumpErrorView {
        match self {
            BumpError::MalformedPrerelease(t) => BumpErrorView::MalformedPrerelease(t@),
            BumpError::UnsupportedStage(t) => BumpErrorView::UnsupportedStage(t@),
        }
    }
}

pub open spec fn bump_result_view(r: Result<SemanticVersion, BumpError>) -> Result<
    VersionView,
    BumpErrorView,
> {
    match r {
        Ok(v) => Ok(v@),
        Err(e) => Err(e@),
    }
}

pub open spec fn saturating_inc(x: u64) -> u64 {
    if x == u64::MAX {
        x
    } else {
        (x + 1) as u64
    }
}

pub open spec fn with_pre(v: VersionView, pre: Seq<char>) -> VersionView {
    VersionView { major: v.major, minor: v.minor, patch: v.patch, pre, build: v.build }
}

pub open spec fn bump_major(v: VersionView) -> VersionView {
    VersionView { major: saturating_inc(v.major), minor: 0, patch: 0, pre: v.pre, build: v.build }
}

pub open spec fn bump_minor(v: VersionView) -> VersionView {
    VersionView { major: v.major, minor: saturating_inc(v.minor), patch: 0, pre: v.pre, build: v.build }
}

pub open spec fn bump_patch(v: VersionView) -> VersionView {
    VersionView {
        major: v.major,
        minor: v.minor,
        patch: saturating_inc(v.patch),
        pre: v.pre,
        build: v.build,
    }
}

/// `<stage>.<number>` becomes `<stage>.<number + 1>`.
pub open spec fn bump_prerelease(v: VersionView) -> Result<VersionView, BumpErrorView> {
    match prerelease_tag(v.pre) {
        Some((stage, number)) => Ok(
            with_pre(v, stage + seq!['.'] + decimal_text(saturating_inc(number) as nat)),
        ),
        None => Err(BumpErrorView::MalformedPrerelease(v.pre)),
    }
}

/// `alpha.* -> beta.0`, `beta.* -> rc.0`, `rc.* -> ` (a release).
pub open spec fn promote_prerelease(v: VersionView) -> Result<VersionView, BumpErrorView> {
    match prerelease_tag(v.pre) {
        Some((stage, _)) => if stage == "alpha"@ {
            Ok(with_pre(v, "beta.0"@))
        } else if stage == "beta"@ {
            Ok(with_pre(v, "rc.0"@))
        } else if stage == "rc"@ {
            Ok(with_pre(v, Seq::empty()))
        } else {
            Err(BumpErrorView::UnsupportedStage(v.pre))
        },
        None => Err(BumpErrorView::MalformedPrerelease(v.pre)),
    }
}

/// What bumping `v` at `level` gives.
pub open spec fn bump_spec(level: BumpLevel, v: VersionView) -> Result<VersionView, BumpErrorView> {
    match level {
        BumpLevel::Major => Ok(bump_major(v)),
        BumpLevel::Minor => Ok(bump_minor(v)),
        BumpLevel::Patch => Ok(bump_patch(v)),
        BumpLevel::PreRelease => bump_prerelease(v),
        BumpLevel::PromotePreRelease => promote_prerelease(v),
        BumpLevel::PatchOrPreRelease => if v.pre.len() == 0 {
            Ok(bump_patch(v))
        } else {
            bump_prerelease(v)
        },
    }
}

/// Whether two texts hold the same characters.
pub(crate) fn same_text(a: &str, b: &str) -> (r: bool)
    ensures
        r == (a@ == b@),
{
    let n = a.unicode_len();
    if n != b.unicode_len() {
        return false;
    }
    let mut i: usize = 0;
    while i < n
        invariant
            i <= n,
            n == a@.len(),
            n == b@.len(),
            a@.subrange(0, i as int) == b@.subrange(0, i as int),
        decreases n - i,
    {
        if a.get_char(i) != b.get_char(i) {
            return false;
        }
        assert(a@.subrange(0, i as int + 1) =~= b@.subrange(0, i as int + 1));
        i = i + 1;
    }
    assert(a@ =~= a@.subrange(0, n as int));
    assert(b@ =~= b@.subrange(0, n as int));
    true
}

fn with_prerelease(current: &SemanticVersion, pre: String) -> (r: SemanticVersion)
    ensures
        r@ == with_pre(current@, pre@),
{
    SemanticVersion {
        major: current.major,
        minor: current.minor,
        patch: current.patch,
        pre,
        build: current.build.clone(),
    }
}

fn next_patch(current: &SemanticVersion) -> (r: SemanticVersion)
    ensures
        r@ == bump_patch(current@),
{
    SemanticVersion {
        major: current.major,
        minor: current.minor,
        patch: current.patch.saturating_add(1),
        pre: current.pre.clone(),
        build: current.build.clone(),
    }
}

fn next_prerelease(current: &SemanticVersion) -> (r: Result<SemanticVersion, BumpError>)
    ensures
        bump_result_view(r) == bump_prerelease(current@),
{
    match parse_prerelease(current.pre.as_str()) {
        Some(tag) => {
            let mut pre = tag.stage;
            proof {
                reveal_strlit(".");
            }
            pre.append(".");
            assert(pre@ == tag.stage@ + seq!['.']);
            let next = tag.number.saturating_add(1);
            assert(next == saturating_inc(tag.number));
            append_decimal(&mut pre, next);
            assert(pre@ == tag.stage@ + seq!['.'] + decimal_text(next as nat));
            Ok(with_prerelease(current, pre))
        },
        None => Err(BumpError::MalformedPrerelease(current.pre.clone())),
    }
}

/// Computes the next version of `current` at `level`. The input is left as it
/// was; a prerelease that the level cannot read is an error that holds it.
pub fn bump_version(level: &BumpLevel, current: &SemanticVersion) -> (r: Result<
    SemanticVersion,
    BumpError,
>)
    ensures
        bump_result_view(r) == bump_spec(*level, current@),
{
    match level {
        BumpLevel::Major => Ok(SemanticVersion {
            major: current.major.saturating_add(1),
            minor: 0,
            patch: 0,
            pre: current.pre.clone(),
            build: current.build.clone(),
        }),
        BumpLevel::Minor => Ok(SemanticVersion {
            major: current.major,
            minor: current.minor.saturating_add(1),
            patch: 0,
            pre: current.pre.clone(),
            build: current.build.clone(),
        }),
        BumpLevel::Patch => Ok(next_patch(current)),
        BumpLevel::PreRelease => next_prerelease(current),
        BumpLevel::PromotePreRelease => match parse_prerelease(current.pre.as_str()) {
            Some(tag) => {
                proof {
                    reveal_strlit("alpha");
                    reveal_strlit("beta");
                    reveal_strlit("rc");
                }
                if same_text(tag.stage.as_str(), "alpha") {
                    Ok(with_prerelease(current, String::from_str("beta.0")))
                } else if same_text(tag.stage.as_str(), "beta") {
                    Ok(with_prerelease(current, String::from_str("rc.0")))
                } else if same_text(tag.stage.as_str(), "rc") {
                    Ok(with_prerelease(current, String::new()))
                } else {
                    Err(BumpError::UnsupportedStage(current.pre.clone()))
                }
            },
            None => Err(BumpError::MalformedPrerelease(current.pre.clone())),
        },
        BumpLevel::PatchOrPreRelease => {
            if current.pre.as_str().is_empty() {
                Ok(next_patch(current))
            } else {
                next_prerelease(current)
            }
        },
    }
}

impl BumpError {
    /// The text of the error, naming the offending prerelease.
    pub fn to_string(&self) -> (r: String)
        ensures
            r@ == match self@ {
                BumpErrorView::MalformedPrerelease(t) => "unexpected prerelease format: "@ + t,
                BumpErrorView::UnsupportedStage(t) => "unexpected prerelease format: "@ + t
                    + ", only alpha, beta, and rc are supported"@,
            },
    {
        let mut r = String::from_str("unexpected prerelease format: ");
        match self {
            BumpError::MalformedPrerelease(t) => {
                r.append(t.as_str());
            },
            BumpError::UnsupportedStage(t) => {
                r.append(t.as_str());
                r.append(", only alpha, beta, and rc are supported");
            },
        }
        r
    }
}

/// The fields of the version that `text` denotes under semver's grammar, in
/// the order major, minor, patch, prerelease, build metadata.
pub uninterp spec fn semver_fields(text: Seq<char>) -> Option<(u64, u64, u64, Seq<char>, Seq<char>)>;

/// Relies on `semver::Version::parse`: `Some` with the fields of the parsed
/// version where the text is a semantic version, `None` where the parse fails.
#[verifier::external_body]
fn semver_parse(text: &str) -> (r: Option<SemanticVersion>)
    ensures
        match semver_fields(text@) {
            Some((major, minor, patch, pre, build)) => r is Some && r->0@ == (VersionView {
                major,
                minor,
                patch,
                pre,
                build,
            }),
            None => r is None,
        },
{
    match semver::Version::parse(text) {
        Ok(v) => Some(
            SemanticVersion {
                major: v.major,
                minor: v.minor,
                patch: v.patch,
                pre: v.pre.as_str().to_string(),
                build: v.build.as_str().to_string(),
            },
        ),
        Err(_) => None,
    }
}

/// Reads a version such as `1.2.3-alpha.0`; `None` where the text is not a
/// semantic version.
pub fn parse_version(text: &str) -> (r: Option<SemanticVersion>)
    ensures
        match semver_fields(text@) {
            Some((major, minor, patch, pre, build)) => r is Some && r->0@ == (VersionView {
                major,
                minor,
                patch,
                pre,
                build,
            }),
            None => r is None,
        },
{
    semver_parse(text)
}

/// The text of a version: `major.minor.patch`, then `-pre` where there is a
/// prerelease and `+build` where there is build metadata.
pub open spec fn version_text_of(v: VersionView) -> Seq<char> {
    decimal_text(v.major as nat) + seq!['.'] + decimal_text(v.minor as nat) + seq!['.']
        + decimal_text(v.patch as nat) + (if v.pre.len() > 0 {
        seq!['-'] + v.pre
    } else {
        Seq::empty()
    }) + (if v.build.len() > 0 {
        seq!['+'] + v.build
    } else {
        Seq::empty()
    })
}

/// Writes `v` out as text, in the form in which semver displays a version.
pub fn version_text(v: &SemanticVersion) -> (r: String)
    ensures
        r@ == version_text_of(v@),
{
    proof {
        reveal_strlit(".");
        reveal_strlit("-");
        reveal_strlit("+");
    }
    let mut r = String::new();
    append_decimal(&mut r, v.major);
    r.append(".");
    append_decimal(&mut r, v.minor);
    r.append(".");
    append_decimal(&mut r, v.patch);
    let ghost numbers = r@;
    if !v.pre.as_str().is_empty() {
        r.append("-");
        r.append(v.pre.as_str());
    }
    let ghost with_pre = r@;
    if !v.build.as_str().is_empty() {
        r.append("+");
        r.append(v.build.as_str());
    }
    assert(numbers == decimal_text(v.major as nat) + seq!['.'] + decimal_text(v.minor as nat)
        + seq!['.'] + decimal_text(v.patch as nat));
    assert(r@ =~= version_text_of(v@));
    r
}

/// A major bump adds one to the major number and zeroes minor and patch.
pub proof fn lemma_major_bump(v: SemanticVersion)
    requires
        v.major < u64::MAX,
    ensures
        bump_spec(BumpLevel::Major, v@) is Ok,
        bump_spec(BumpLevel::Major, v@)->Ok_0.major == v.major + 1,
        bump_spec(BumpLevel::Major, v@)->Ok_0.minor == 0,
        bump_spec(BumpLevel::Major, v@)->Ok_0.patch == 0,
{
}

/// A patch bump adds one to the patch number and keeps every other field.
pub proof fn lemma_patch_bump(v: SemanticVersion)
    requires
        v.patch < u64::MAX,
    ensures
        bump_spec(BumpLevel::Patch, v@) == Ok::<VersionView, BumpErrorView>(
            VersionView {
                major: v.major,
                minor: v.minor,
                patch: (v.patch + 1) as u64,
                pre: v.pre@,
                build: v.build@,
            },
        ),
{
}

/// An empty prerelease does not read `<stage>.<number>`.
pub proof fn lemma_empty_prerelease_has_no_tag()
    ensures
        prerelease_tag(Seq::<char>::empty()) is None,
{
}

/// Promoting an `rc.<number>` prerelease gives a release.
pub proof fn lemma_promote_rc_gives_release(v: SemanticVersion, number: u64)
    requires
        prerelease_tag(v.pre@) == Some(("rc"@, number)),
    ensures
        bump_spec(BumpLevel::PromotePreRelease, v@) is Ok,
        bump_spec(BumpLevel::PromotePreRelease, v@)->Ok_0.pre.len() == 0,
{
    reveal_strlit("alpha");
    reveal_strlit("beta");
    reveal_strlit("rc");
}

/// No bump of a release version gives a prerelease version.
pub proof fn lemma_release_stays_release(v: SemanticVersion, level: BumpLevel)
    requires
        v.pre@.len() == 0,
    ensures
        bump_spec(level, v@) is Ok ==> bump_spec(level, v@)->Ok_0.pre.len() == 0,
{
    assert(v.pre@ =~= Seq::<char>::empty());
    lemma_empty_prerelease_has_no_tag();
}

/// `PatchOrPreRelease` is `Patch` on a release and `PreRelease` on a
/// prerelease.
pub proof fn lemma_patch_or_prerelease(v: SemanticVersion)
    ensures
        v.pre@.len() == 0 ==> bump_spec(BumpLevel::PatchOrPreRelease, v@) == bump_spec(
            BumpLevel::Patch,
            v@,
        ),
        v.pre@.len() != 0 ==> bump_spec(BumpLevel::PatchOrPreRelease, v@) == bump_spec(
            BumpLevel::PreRelease,
            v@,
        ),
{
}

/// A prerelease that does not read `<stage>.<number>` makes both prerelease
/// levels fail with that very text; neither guesses a version.
pub proof fn lemma_malformed_prerelease_fails(v: SemanticVersion)
    requires
        prerelease_tag(v.pre@) is None,
    ensures
        bump_spec(BumpLevel::PreRelease, v@) == Err::<VersionView, BumpErrorView>(
            BumpErrorView::MalformedPrerelease(v.pre@),
        ),
        bump_spec(BumpLevel::PromotePreRelease, v@) == Err::<VersionView, BumpErrorView>(
            BumpErrorView::MalformedPrerelease(v.pre@),
        ),
{
}

} // verus!
