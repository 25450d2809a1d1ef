//! The interpreter probe: the version of the installed interpreter as the
//! package manager prints it, the library directory that belongs to it, and
//! the packages with files in a directory of another version.

use vstd::prelude::*;
use vstd::string::StringSliceAdditionalSpecFns;
use crate::text::{views, split, lines, has_prefix, trimmed_start, split_lines, split_bytes, starts_with, trim_start, append, bytes_eq, copy_bytes, lemma_split_nonempty};

verus! {

/// The version of the interpreter's package: `major.minor.release-package`.
#[derive(Clone, Copy, Debug, PartialEq, Eq)]
pub struct PythonPackageVersion {
    pub major: u8,
    pub minor: u8,
    pub release: u8,
    pub package: u8,
}

/// Why no version was read.
#[derive(Clone, Copy, Debug, PartialEq, Eq)]
pub enum VersionError {
    /// The package manager did not end with success.
    QueryFailed,
    /// No line begins with `Version`.
    NoVersionLine,
    /// The version line holds no `:`.
    NoVersionValue,
    /// The part before the first `.` is no number.
    BadMajor,
    /// There is no part after the first `.`, or it is no number.
    BadMinor,
    /// There is no part after the second `.`.
    NoRelease,
    /// The part after the second `.` and before the `-` is no number.
    BadRelease,
    /// There is no part after the `-`, or it is no number.
    BadPackage,
}

/// A package with files in an interpreter directory that the installed
/// interpreter does not read.
#[derive(Debug)]
pub struct PythonFinding {
    pub package: Vec<u8>,
    pub dir: Vec<u8>,
}

/// A decimal digit.
pub open spec fn is_digit(b: u8) -> bool {
    0x30 <= b <= 0x39
}

/// Every byte is a decimal digit.
pub open spec fn all_digits(s: Seq<u8>) -> bool {
    forall|i: int| 0 <= i < s.len() ==> is_digit(#[trigger] s[i])
}

/// The number that decimal digits stand for.
pub open spec fn digits_value(s: Seq<u8>) -> nat
    decreases s.len(),
{
    if s.len() == 0 {
        0
    } else {
        digits_value(s.drop_last()) * 10 + if is_digit(s.last()) {
            (s.last() - 0x30) as nat
        } else {
            0nat
        }
    }
}

/// The number below 256 that a text stands for: decimal digits, at least one,
/// after at most one `+`.
pub open spec fn decimal_u8(s: Seq<u8>) -> Option<u8> {
    let digits = if s.len() > 0 && s[0] == 0x2b {
        s.drop_first()
    } else {
        s
    };
    if digits.len() > 0 && all_digits(digits) && digits_value(digits) <= 255 {
        Some(digits_value(digits) as u8)
    } else {
        None
    }
}

/// The decimal digits of a number.
pub open spec fn decimal(n: nat) -> Seq<u8>
    decreases n,
{
    if n < 10 {
        seq![(0x30 + n) as u8]
    } else {
        decimal(n / 10).push((0x30 + n % 10) as u8)
    }
}

/// The first line at or after index `i` that begins with `Version`.
pub open spec fn version_line(ls: Seq<Seq<u8>>, i: int) -> Option<Seq<u8>>
    decreases ls.len() - i,
{
    if i < 0 || i >= ls.len() {
        None
    } else if has_prefix(ls[i], "Version".spec_bytes()) {
        Some(ls[i])
    } else {
        version_line(ls, i + 1)
    }
}

/// The version in a text `major.minor.release-package`.
pub open spec fn version_in(text: Seq<u8>) -> Result<PythonPackageVersion, VersionError> {
    let dots = split(text, 0x2e);
    match decimal_u8(dots[0]) {
        None => Err(VersionError::BadMajor),
        Some(major) => if dots.len() < 2 {
            Err(VersionError::BadMinor)
        } else {
            match decimal_u8(dots[1]) {
                None => Err(VersionError::BadMinor),
                Some(minor) => if dots.len() < 3 {
                    Err(VersionError::NoRelease)
                } else {
                    let dashes = split(dots[2], 0x2d);
                    match decimal_u8(dashes[0]) {
                        None => Err(VersionError::BadRelease),
                        Some(release) => if dashes.len() < 2 {
                            Err(VersionError::BadPackage)
                        } else {
                            match decimal_u8(dashes[1]) {
                                None => Err(VersionError::BadPackage),
                                Some(package) => Ok(
                                    PythonPackageVersion { major, minor, release, package },
                                ),
                            }
                        },
                    }
                },
            }
        },
    }
}

/// The version that the package manager's description of the interpreter's
/// package holds: in the first line that begins with `Version`, what follows
/// the first `:` up to the next one, without leading whitespace.
pub open spec fn version_of(output: Seq<u8>) -> Result<PythonPackageVersion, VersionError> {
    match version_line(lines(output), 0) {
        None => Err(VersionError::NoVersionLine),
        Some(line) => {
            let parts = split(line, 0x3a);
            if parts.len() < 2 {
                Err(VersionError::NoVersionValue)
            } else {
                version_in(trimmed_start(parts[1]))
            }
        },
    }
}

/// The text of a version.
pub open spec fn version_text(v: PythonPackageVersion) -> Seq<u8> {
    decimal(v.major as nat) + ".".spec_bytes() + decimal(v.minor as nat) + ".".spec_bytes()
        + decimal(v.release as nat) + "-".spec_bytes() + decimal(v.package as nat)
}

/// The library directory of the interpreter of a version.
pub open spec fn python_dir_of(v: PythonPackageVersion) -> Seq<u8> {
    "/usr/lib/python".spec_bytes() + decimal(v.major as nat) + ".".spec_bytes() + decimal(
        v.minor as nat,
    )
}

/// The pattern that the library directories of all interpreters of a major
/// version match.
pub open spec fn python_glob_of(v: PythonPackageVersion) -> Seq<u8> {
    "/usr/lib/python".spec_bytes() + decimal(v.major as nat) + "*".spec_bytes()
}

/// The packages and directories of findings.
pub open spec fn pair_views(found: Seq<PythonFinding>) -> Seq<(Seq<u8>, Seq<u8>)> {
    found.map_values(|f: PythonFinding| (f.package@, f.dir@))
}

/// The findings after the first `n` owners of `dir` were added, each once.
pub open spec fn with_owners(
    acc: Seq<(Seq<u8>, Seq<u8>)>,
    owners: Seq<Seq<u8>>,
    dir: Seq<u8>,
    n: int,
) -> Seq<(Seq<u8>, Seq<u8>)>
    decreases n,
{
    if n <= 0 {
        acc
    } else {
        let before = with_owners(acc, owners, dir, n - 1);
        if before.contains((owners[n - 1], dir)) {
            before
        } else {
            before.push((owners[n - 1], dir))
        }
    }
}

/// The value of a prefix of digits is at most the value of the whole.
pub proof fn lemma_value_prefix(s: Seq<u8>, k: int)
    requires
        0 <= k <= s.len(),
    ensures
        digits_value(s.subrange(0, k)) <= digits_value(s),
    decreases s.len() - k,
{
    if k < s.len() {
        assert(s.subrange(0, k + 1).drop_last() =~= s.subrange(0, k));
        lemma_value_prefix(s, k + 1);
    } else {
        assert(s.subrange(0, k) =~= s);
    }
}

/// Reads a number below 256 from decimal digits after at most one `+`.
pub fn parse_u8(s: &[u8]) -> (r: Option<u8>)
    ensures
        r == decimal_u8(s@),
{
    let n = s.len();
    let start: usize = if n > 0 && s[0] == 0x2b { 1 } else { 0 };
    let ghost digits = s@.subrange(start as int, n as int);
    proof {
        if start == 1 {
            assert(digits =~= s@.drop_first());
        } else {
            assert(digits =~= s@);
        }
    }
    if start == n {
        return None;
    }
    let mut acc: u32 = 0;
    let mut i: usize = start;
    proof {
        assert(digits.subrange(0, 0) =~= Seq::<u8>::empty());
    }
    while i < n
        invariant
            start <= i <= n,
            n == s@.len(),
            digits == s@.subrange(start as int, n as int),
            digits == if s@.len() > 0 && s@[0] == 0x2b {
                s@.drop_first()
            } else {
                s@
            },
            all_digits(digits.subrange(0, i - start)),
            acc == digits_value(digits.subrange(0, i - start)),
            acc <= 255,
        decreases n - i,
    {
        let b = s[i];
        proof {
            assert(digits[i - start] == b);
            assert(digits.subrange(0, i + 1 - start).drop_last() =~= digits.subrange(0, i - start));
        }
        if b < 0x30 || b > 0x39 {
            proof {
                assert(!is_digit(digits[i - start]));
            }
            return None;
        }
        acc = acc * 10 + (b - 0x30) as u32;
        if acc > 255 {
            proof {
                assert(digits.subrange(0, i + 1 - start).last() == b);
                assert(acc == digits_value(digits.subrange(0, i + 1 - start)));
                lemma_value_prefix(digits, i + 1 - start);
            }
            return None;
        }
        proof {
            assert forall|j: int| 0 <= j < i + 1 - start implies is_digit(
                #[trigger] digits.subrange(0, i + 1 - start)[j],
            ) by {
                if j < i - start {
                    assert(digits.subrange(0, i - start)[j] == digits[j]);
                }
            }
        }
        i += 1;
    }
    proof {
        assert(digits.subrange(0, i - start) =~= digits);
    }
    Some(acc as u8)
}

/// Writes a number below 256 in decimal digits.
pub fn render_u8(n: u8) -> (r: Vec<u8>)
    ensures
        r@ == decimal(n as nat),
{
    let mut out: Vec<u8> = Vec::new();
    if n >= 100 {
        out.push(0x30 + n / 100);
    }
    if n >= 10 {
        out.push(0x30 + (n / 10) % 10);
    }
    out.push(0x30 + n % 10);
    proof {
        reveal_with_fuel(decimal, 3);
        assert(out@ =~= decimal(n as nat));
    }
    out
}

/// Reads the version from a text `major.minor.release-package`.
pub fn parse_version(text: &[u8]) -> (r: Result<PythonPackageVersion, VersionError>)
    ensures
        r == version_in(text@),
{
    let dots = split_bytes(text, 0x2e);
    proof {
        lemma_split_nonempty(text@, 0x2e);
        assert(views(dots@).len() == dots@.len());
        assert(views(dots@)[0] == dots@[0]@);
    }
    let major = match parse_u8(dots[0].as_slice()) {
        Some(v) => v,
        None => { return Err(VersionError::BadMajor); },
    };
    if dots.len() < 2 {
        return Err(VersionError::BadMinor);
    }
    proof {
        assert(views(dots@)[1] == dots@[1]@);
    }
    let minor = match parse_u8(dots[1].as_slice()) {
        Some(v) => v,
        None => { return Err(VersionError::BadMinor); },
    };
    if dots.len() < 3 {
        return Err(VersionError::NoRelease);
    }
    proof {
        assert(views(dots@)[2] == dots@[2]@);
    }
    let dashes = split_bytes(dots[2].as_slice(), 0x2d);
    proof {
        lemma_split_nonempty(dots@[2]@, 0x2d);
        assert(views(dashes@).len() == dashes@.len());
        assert(views(dashes@)[0] == dashes@[0]@);
    }
    let release = match parse_u8(dashes[0].as_slice()) {
        Some(v) => v,
        None => { return Err(VersionError::BadRelease); },
    };
    if dashes.len() < 2 {
        return Err(VersionError::BadPackage);
    }
    proof {
        assert(views(dashes@)[1] == dashes@[1]@);
    }
    let package = match parse_u8(dashes[1].as_slice()) {
        Some(v) => v,
        None => { return Err(VersionError::BadPackage); },
    };
    Ok(PythonPackageVersion { major, minor, release, package })
}

/// Reads the interpreter's version from the package manager's description of
/// its package, given whether the package manager ended with success.
#[verifier::loop_isolation(false)]
pub fn get_python_version(success: bool, output: &[u8]) -> (r: Result<
    PythonPackageVersion,
    VersionError,
>)
    ensures
        !success ==> r == Err::<PythonPackageVersion, VersionError>(VersionError::QueryFailed),
        success ==> r == version_of(output@),
{
    if !success {
        return Err(VersionError::QueryFailed);
    }
    let ls = split_lines(output);
    let ghost all = lines(output@);
    let mut i: usize = 0;
    while i < ls.len()
        invariant
            i <= ls@.len(),
            views(ls@) == all,
            version_line(all, 0) == version_line(all, i as int),
        decreases ls@.len() - i,
    {
        proof {
            assert(views(ls@).len() == ls@.len());
            assert(all[i as int] == ls@[i as int]@);
        }
        if starts_with(ls[i].as_slice(), "Version".as_bytes()) {
            let parts = split_bytes(ls[i].as_slice(), 0x3a);
            proof {
                assert(views(parts@).len() == parts@.len());
            }
            if parts.len() < 2 {
                return Err(VersionError::NoVersionValue);
            }
            proof {
                assert(views(parts@)[1] == parts@[1]@);
            }
            let text = trim_start(parts[1].as_slice());
            return parse_version(text.as_slice());
        }
        i += 1;
    }
    proof {
        assert(views(ls@).len() == ls@.len());
    }
    Err(VersionError::NoVersionLine)
}

impl PythonPackageVersion {
    /// The text of the version: `major.minor.release-package`.
    pub fn to_text(&self) -> (r: Vec<u8>)
        ensures
            r@ == version_text(*self),
    {
        let mut out = render_u8(self.major);
        append(&mut out, ".".as_bytes());
        append(&mut out, render_u8(self.minor).as_slice());
        append(&mut out, ".".as_bytes());
        append(&mut out, render_u8(self.release).as_slice());
        append(&mut out, "-".as_bytes());
        append(&mut out, render_u8(self.package).as_slice());
        out
    }

    /// The library directory of the interpreter of this version.
    pub fn python_dir(&self) -> (r: Vec<u8>)
        ensures
            r@ == python_dir_of(*self),
    {
        let mut out = copy_bytes("/usr/lib/python".as_bytes());
        append(&mut out, render_u8(self.major).as_slice());
        append(&mut out, ".".as_bytes());
        append(&mut out, render_u8(self.minor).as_slice());
        out
    }

    /// The pattern for the library directories of all interpreters of this
    /// major version.
    pub fn python_glob(&self) -> (r: Vec<u8>)
        ensures
            r@ == python_glob_of(*self),
    {
        let mut out = copy_bytes("/usr/lib/python".as_bytes());
        append(&mut out, render_u8(self.major).as_slice());
        append(&mut out, "*".as_bytes());
        out
    }

    /// Whether the installed interpreter ignores the library directory `dir`:
    /// it is not the directory of this version.
    pub fn ignores_dir(&self, dir: &[u8]) -> (r: bool)
        ensures
            r == (dir@ != python_dir_of(*self)),
    {
        let own = self.python_dir();
        !bytes_eq(dir, own.as_slice())
    }
}

/// Whether the findings hold the pair of `package` and `dir`.
pub fn has_finding(found: &Vec<PythonFinding>, package: &[u8], dir: &[u8]) -> (r: bool)
    ensures
        r == pair_views(found@).contains((package@, dir@)),
{
    let mut i: usize = 0;
    while i < found.len()
        invariant
            i <= found@.len(),
            forall|j: int| 0 <= j < i ==> pair_views(found@)[j] != (package@, dir@),
        decreases found@.len() - i,
    {
        if bytes_eq(found[i].package.as_slice(), package) && bytes_eq(found[i].dir.as_slice(), dir) {
            proof {
                assert(pair_views(found@)[i as int] == (package@, dir@));
            }
            return true;
        }
        i += 1;
    }
    false
}

/// Adds a finding for each owner of the ignored directory `dir`, unless the
/// findings hold it already.
pub fn get_broken_python_packages(found: &mut Vec<PythonFinding>, dir: &[u8], owners: &Vec<Vec<u8>>)
    ensures
        pair_views(final(found)@) == with_owners(
            pair_views(old(found)@),
            views(owners@),
            dir@,
            owners@.len() as int,
        ),
{
    let mut i: usize = 0;
    while i < owners.len()
        invariant
            i <= owners@.len(),
            pair_views(found@) == with_owners(
                pair_views(old(found)@),
                views(owners@),
                dir@,
                i as int,
            ),
        decreases owners@.len() - i,
    {
        proof {
            assert(views(owners@)[i as int] == owners@[i as int]@);
        }
        if !has_finding(found, owners[i].as_slice(), dir) {
            let ghost before = found@;
            found.push(
                PythonFinding { package: copy_bytes(owners[i].as_slice()), dir: copy_bytes(dir) },
            );
            proof {
                assert(pair_views(found@) =~= pair_views(before).push((owners@[i as int]@, dir@)));
            }
        }
        i += 1;
    }
}

} // verus!
