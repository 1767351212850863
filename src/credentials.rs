//! Reader for the shared credentials file: INI-style text with one section
//! per profile and the keys `aws_access_key_id` and `aws_secret_access_key`.
//!
//! The format, line by line after trimming blanks: an empty line or one that
//! starts with `;` or `#` is ignored; `[name]` opens a section; `key = value`
//! sets a key of the open section (the first `=` splits). Anything else, or
//! an entry before the first section, is a syntax error at that line. Each
//! section needs both keys with non-empty values. A section name seen again
//! replaces the earlier record in place.
use vstd::prelude::*;
use crate::text::text_is;
use vstd::std_specs::iter::IteratorSpec;

verus! {

/// The long-term key pair of one profile.
#[derive(PartialEq, Eq, Clone, Debug)]
pub struct Credential {
    pub name: String,
    pub aws_access_key_id: String,
    pub aws_secret_access_key: String,
}

/// What a [`Credential`] holds.
pub struct CredentialModel {
    pub name: Seq<char>,
    pub access_key_id: Seq<char>,
    pub secret_access_key: Seq<char>,
}

impl View for Credential {
    type V = CredentialModel;

    open spec fn view(&self) -> CredentialModel {
        CredentialModel {
            name: self.name@,
            access_key_id: self.aws_access_key_id@,
            secret_access_key: self.aws_secret_access_key@,
        }
    }
}

/// A key that each section must hold.
#[derive(PartialEq, Eq, Structural, Clone, Copy, Debug)]
pub enum CredentialField {
    AccessKeyId,
    SecretAccessKey,
}

/// Why the credentials could not be read.
#[derive(PartialEq, Eq, Clone, Debug)]
pub enum CredentialsError {
    /// No path was given and no home directory is known.
    NoHomeDirectory,
    /// The path cannot be represented as text.
    UnrepresentablePath,
    /// The line with this number (from 1) is not part of the format.
    Syntax(usize),
    /// The named section lacks the field, or holds it empty.
    MissingField { profile: String, field: CredentialField },
}

/// What a failed parse reports.
pub enum ParseFailure {
    Syntax(nat),
    MissingField(Seq<char>, CredentialField),
}

pub open spec fn failure_of(e: CredentialsError) -> Option<ParseFailure> {
    match e {
        CredentialsError::Syntax(n) => Some(ParseFailure::Syntax(n as nat)),
        CredentialsError::MissingField { profile, field } => Some(
            ParseFailure::MissingField(profile@, field),
        ),
        _ => None,
    }
}

// ---- lines ----
/// Completed lines and the line still open after reading `s`.
pub open spec fn split_state(s: Seq<char>) -> (Seq<Seq<char>>, Seq<char>)
    decreases s.len(),
{
    if s.len() == 0 {
        (Seq::empty(), Seq::empty())
    } else {
        let (done, open) = split_state(s.drop_last());
        if s.last() == '\n' {
            (done.push(open), Seq::empty())
        } else {
            (done, open.push(s.last()))
        }
    }
}

/// The lines of `s`, split at each line feed.
pub open spec fn lines_of(s: Seq<char>) -> Seq<Seq<char>> {
    split_state(s).0.push(split_state(s).1)
}

pub open spec fn is_blank(c: char) -> bool {
    c == ' ' || c == '\t' || c == '\r'
}

pub open spec fn trim_start(s: Seq<char>) -> Seq<char>
    decreases s.len(),
{
    if s.len() > 0 && is_blank(s[0]) {
        trim_start(s.drop_first())
    } else {
        s
    }
}

pub open spec fn trim_end(s: Seq<char>) -> Seq<char>
    decreases s.len(),
{
    if s.len() > 0 && is_blank(s.last()) {
        trim_end(s.drop_last())
    } else {
        s
    }
}

pub open spec fn trim(s: Seq<char>) -> Seq<char> {
    trim_end(trim_start(s))
}

/// Index of the first `c` in `s`, or its length when there is none.
pub open spec fn first_index(s: Seq<char>, c: char) -> nat
    decreases s.len(),
{
    if s.len() == 0 || s[0] == c {
        0
    } else {
        1 + first_index(s.drop_first(), c)
    }
}

/// The meaning of one line.
pub enum LineKind {
    Ignored,
    Header(Seq<char>),
    Entry(Seq<char>, Seq<char>),
    Invalid,
}

pub open spec fn classify(line: Seq<char>) -> LineKind {
    let t = trim(line);
    if t.len() == 0 || t[0] == ';' || t[0] == '#' {
        LineKind::Ignored
    } else if t[0] == '[' {
        if t.len() >= 2 && t.last() == ']' {
            LineKind::Header(trim(t.subrange(1, t.len() - 1)))
        } else {
            LineKind::Invalid
        }
    } else {
        let k = first_index(t, '=') as int;
        if k < t.len() {
            LineKind::Entry(trim(t.take(k)), trim(t.skip(k + 1)))
        } else {
            LineKind::Invalid
        }
    }
}

// ---- sections ----
/// The section being read, with the values of the keys that matter so far.
pub struct Block {
    pub name: Seq<char>,
    pub access: Option<Seq<char>>,
    pub secret: Option<Seq<char>>,
}

pub struct ReadState {
    pub creds: Seq<CredentialModel>,
    pub open: Option<Block>,
}

pub open spec fn set_key(b: Block, key: Seq<char>, value: Seq<char>) -> Block {
    if key == "aws_access_key_id"@ {
        Block { access: Some(value), ..b }
    } else if key == "aws_secret_access_key"@ {
        Block { secret: Some(value), ..b }
    } else {
        b
    }
}

pub open spec fn has_name(cs: Seq<CredentialModel>, name: Seq<char>) -> bool {
    exists|i: int| 0 <= i < cs.len() && (#[trigger] cs[i]).name == name
}

/// `c` replaces the record with its name, or is appended when none has it.
pub open spec fn upsert(cs: Seq<CredentialModel>, c: CredentialModel) -> Seq<CredentialModel> {
    if has_name(cs, c.name) {
        cs.update(choose|i: int| 0 <= i < cs.len() && (#[trigger] cs[i]).name == c.name, c)
    } else {
        cs.push(c)
    }
}

pub open spec fn names_unique(cs: Seq<CredentialModel>) -> bool {
    forall|i: int, j: int| 0 <= i < j < cs.len() ==> (#[trigger] cs[i]).name != (#[trigger] cs[j]).name
}

/// Closes the open section into its record.
pub open spec fn close(st: ReadState) -> Result<Seq<CredentialModel>, ParseFailure> {
    match st.open {
        None => Ok(st.creds),
        Some(b) => if !(b.access matches Some(a) && a.len() > 0) {
            Err(ParseFailure::MissingField(b.name, CredentialField::AccessKeyId))
        } else if !(b.secret matches Some(s) && s.len() > 0) {
            Err(ParseFailure::MissingField(b.name, CredentialField::SecretAccessKey))
        } else {
            Ok(
                upsert(
                    st.creds,
                    CredentialModel {
                        name: b.name,
                        access_key_id: b.access->0,
                        secret_access_key: b.secret->0,
                    },
                ),
            )
        },
    }
}

/// Reads line number `n` (from 1).
pub open spec fn step(st: ReadState, line: Seq<char>, n: nat) -> Result<ReadState, ParseFailure> {
    match classify(line) {
        LineKind::Ignored => Ok(st),
        LineKind::Invalid => Err(ParseFailure::Syntax(n)),
        LineKind::Header(name) => match close(st) {
            Ok(cs) => Ok(ReadState { creds: cs, open: Some(Block { name, access: None, secret: None }) }),
            Err(f) => Err(f),
        },
        LineKind::Entry(k, v) => match st.open {
            None => Err(ParseFailure::Syntax(n)),
            Some(b) => Ok(ReadState { open: Some(set_key(b, k, v)), ..st }),
        },
    }
}

/// The state after the first `n` lines.
pub open spec fn read_lines(lines: Seq<Seq<char>>, n: nat) -> Result<ReadState, ParseFailure>
    decreases n,
{
    if n == 0 {
        Ok(ReadState { creds: Seq::empty(), open: None })
    } else {
        match read_lines(lines, (n - 1) as nat) {
            Ok(st) => step(st, lines[n - 1], n),
            Err(f) => Err(f),
        }
    }
}

/// The records a credentials text holds, in order of first appearance, or
/// the first failure.
pub open spec fn parse_model(text: Seq<char>) -> Result<Seq<CredentialModel>, ParseFailure> {
    parse_lines(lines_of(text))
}

/// The records that a sequence of lines holds, or the first failure.
pub open spec fn parse_lines(lines: Seq<Seq<char>>) -> Result<Seq<CredentialModel>, ParseFailure> {
    match read_lines(lines, lines.len()) {
        Ok(st) => close(st),
        Err(f) => Err(f),
    }
}

// ---- executable reading ----
fn chars_of(text: &str) -> (r: Vec<char>)
    ensures
        r@ == text@,
{
    let mut out: Vec<char> = Vec::new();
    let mut it = text.chars();
    loop
        invariant
            out@ + it.remaining() == text@,
        ensures
            out@ == text@,
        decreases text@.len() - out@.len(),
    {
        match it.next() {
            Some(c) => out.push(c),
            None => {
                assert(out@ =~= text@);
                break;
            },
        }
    }
    out
}

proof fn lemma_take_step(s: Seq<char>, i: int)
    requires
        0 <= i < s.len(),
    ensures
        s.take(i + 1).drop_last() == s.take(i),
        s.take(i + 1).last() == s[i],
{
    assert(s.take(i + 1).drop_last() =~= s.take(i));
}

/// Start and end of each line of `s`.
fn line_bounds(s: &Vec<char>) -> (r: Vec<(usize, usize)>)
    ensures
        r@.len() == lines_of(s@).len(),
        forall|k: int|
            0 <= k < r@.len() ==> {
                &&& (#[trigger] r@[k]).0 <= r@[k].1 <= s@.len()
                &&& s@.subrange(r@[k].0 as int, r@[k].1 as int) == lines_of(s@)[k]
            },
{
    let mut out: Vec<(usize, usize)> = Vec::new();
    let mut start: usize = 0;
    let mut i: usize = 0;
    while i < s.len()
        invariant
            start <= i <= s@.len(),
            out@.len() == split_state(s@.take(i as int)).0.len(),
            split_state(s@.take(i as int)).1 == s@.subrange(start as int, i as int),
            forall|k: int|
                0 <= k < out@.len() ==> {
                    &&& (#[trigger] out@[k]).0 <= out@[k].1 <= start
                    &&& s@.subrange(out@[k].0 as int, out@[k].1 as int) == split_state(
                        s@.take(i as int),
                    ).0[k]
                },
        decreases s@.len() - i,
    {
        proof {
            lemma_take_step(s@, i as int);
        }
        if s[i] == '\n' {
            out.push((start, i));
            i += 1;
            start = i;
            assert(s@.subrange(start as int, i as int) =~= Seq::<char>::empty());
        } else {
            i += 1;
            assert(s@.subrange(start as int, i as int) =~= s@.subrange(
                start as int,
                i - 1,
            ).push(s@[i - 1]));
        }
    }
    assert(s@.take(s@.len() as int) =~= s@);
    out.push((start, i));
    out
}

proof fn lemma_trim_start_skip(s: Seq<char>, a: int, b: int)
    requires
        0 <= a < b <= s.len(),
        is_blank(s[a]),
    ensures
        trim_start(s.subrange(a, b)) == trim_start(s.subrange(a + 1, b)),
{
    assert(s.subrange(a, b).drop_first() =~= s.subrange(a + 1, b));
}

proof fn lemma_trim_end_skip(s: Seq<char>, a: int, b: int)
    requires
        0 <= a < b <= s.len(),
        is_blank(s[b - 1]),
    ensures
        trim_end(s.subrange(a, b)) == trim_end(s.subrange(a, b - 1)),
{
    assert(s.subrange(a, b).drop_last() =~= s.subrange(a, b - 1));
}

/// Bounds of the trimmed part of `s[start..end]`.
fn trim_bounds(s: &Vec<char>, start: usize, end: usize) -> (r: (usize, usize))
    requires
        start <= end <= s@.len(),
    ensures
        start <= r.0 <= r.1 <= end,
        s@.subrange(r.0 as int, r.1 as int) == trim(s@.subrange(start as int, end as int)),
{
    let mut a = start;
    while a < end && (s[a] == ' ' || s[a] == '\t' || s[a] == '\r')
        invariant
            start <= a <= end <= s@.len(),
            trim_start(s@.subrange(start as int, end as int)) == trim_start(
                s@.subrange(a as int, end as int),
            ),
        decreases end - a,
    {
        proof {
            lemma_trim_start_skip(s@, a as int, end as int);
        }
        a += 1;
    }
    assert(trim_start(s@.subrange(a as int, end as int)) == s@.subrange(a as int, end as int));
    let mut b = end;
    while b > a && (s[b - 1] == ' ' || s[b - 1] == '\t' || s[b - 1] == '\r')
        invariant
            start <= a <= b <= end <= s@.len(),
            trim_end(s@.subrange(a as int, end as int)) == trim_end(
                s@.subrange(a as int, b as int),
            ),
        decreases b - a,
    {
        proof {
            lemma_trim_end_skip(s@, a as int, b as int);
        }
        b -= 1;
    }
    (a, b)
}

/// Position of the first `c` in `s[start..end]`, or `end`.
fn find_char(s: &Vec<char>, start: usize, end: usize, c: char) -> (r: usize)
    requires
        start <= end <= s@.len(),
    ensures
        start <= r <= end,
        r - start == first_index(s@.subrange(start as int, end as int), c),
{
    let mut i = start;
    while i < end && s[i] != c
        invariant
            start <= i <= end <= s@.len(),
            first_index(s@.subrange(start as int, end as int), c) == (i - start) + first_index(
                s@.subrange(i as int, end as int),
                c,
            ),
        decreases end - i,
    {
        assert(s@.subrange(i as int, end as int).drop_first() =~= s@.subrange(
            i + 1,
            end as int,
        ));
        i += 1;
    }
    i
}

enum LineRead {
    Ignored,
    Header(String),
    Entry(String, String),
    Invalid,
}

spec fn line_kind(l: LineRead) -> LineKind {
    match l {
        LineRead::Ignored => LineKind::Ignored,
        LineRead::Header(n) => LineKind::Header(n@),
        LineRead::Entry(k, v) => LineKind::Entry(k@, v@),
        LineRead::Invalid => LineKind::Invalid,
    }
}

fn text_between(text: &str, a: usize, b: usize) -> (r: String)
    requires
        a <= b <= text@.len(),
    ensures
        r@ == text@.subrange(a as int, b as int),
{
    String::from_str(text.substring_char(a, b))
}

/// Classifies the line `s[start..end]`.
fn read_line(text: &str, s: &Vec<char>, start: usize, end: usize) -> (r: LineRead)
    requires
        s@ == text@,
        start <= end <= s@.len(),
    ensures
        line_kind(r) == classify(s@.subrange(start as int, end as int)),
{
    let ghost line = s@.subrange(start as int, end as int);
    let (a, b) = trim_bounds(s, start, end);
    let ghost t = trim(line);
    assert(t == s@.subrange(a as int, b as int));
    if a == b {
        return LineRead::Ignored;
    }
    assert(t[0] == s@[a as int]);
    if s[a] == ';' || s[a] == '#' {
        return LineRead::Ignored;
    }
    if s[a] == '[' {
        if b - a >= 2 && s[b - 1] == ']' {
            assert(t.last() == s@[b - 1]);
            assert(t.subrange(1, t.len() - 1) =~= s@.subrange(a + 1, b - 1));
            let (na, nb) = trim_bounds(s, a + 1, b - 1);
            return LineRead::Header(text_between(text, na, nb));
        }
        if b - a >= 2 {
            assert(t.last() == s@[b - 1]);
        }
        return LineRead::Invalid;
    }
    let k = find_char(s, a, b, '=');
    if k < b {
        assert(t.take(k - a) =~= s@.subrange(a as int, k as int));
        assert(t.skip(k - a + 1) =~= s@.subrange(k + 1, b as int));
        let (ka, kb) = trim_bounds(s, a, k);
        let (va, vb) = trim_bounds(s, k + 1, b);
        LineRead::Entry(text_between(text, ka, kb), text_between(text, va, vb))
    } else {
        LineRead::Invalid
    }
}

struct Section {
    name: String,
    access: Option<String>,
    secret: Option<String>,
}

spec fn opt_view(o: Option<String>) -> Option<Seq<char>> {
    match o {
        Some(s) => Some(s@),
        None => None,
    }
}

spec fn block_of(o: Option<Section>) -> Option<Block> {
    match o {
        Some(sec) => Some(Block { name: sec.name@, access: opt_view(sec.access), secret: opt_view(sec.secret) }),
        None => None,
    }
}

/// The models of a list of credentials.
pub open spec fn models(v: Seq<Credential>) -> Seq<CredentialModel> {
    v.map_values(|c: Credential| c@)
}

fn set_section_key(sec: Section, key: &String, value: String) -> (r: Section)
    ensures
        block_of(Some(r)) == Some(set_key(block_of(Some(sec))->0, key@, value@)),
{
    if text_is(key, "aws_access_key_id") {
        Section { access: Some(value), ..sec }
    } else if text_is(key, "aws_secret_access_key") {
        Section { secret: Some(value), ..sec }
    } else {
        sec
    }
}

fn upsert_credential(creds: &mut Vec<Credential>, c: Credential)
    requires
        names_unique(models(old(creds)@)),
    ensures
        models(final(creds)@) == upsert(models(old(creds)@), c@),
        names_unique(models(final(creds)@)),
{
    let ghost cs = models(creds@);
    let mut j: usize = 0;
    while j < creds.len()
        invariant
            j <= creds@.len(),
            cs == models(creds@),
            cs == models(old(creds)@),
            names_unique(cs),
            forall|l: int| 0 <= l < j ==> (#[trigger] cs[l]).name != c@.name,
        decreases creds@.len() - j,
    {
        if creds[j].name == c.name {
            proof {
                assert(cs[j as int].name == c@.name);
                assert(has_name(cs, c@.name));
                let i = choose|i: int| 0 <= i < cs.len() && (#[trigger] cs[i]).name == c@.name;
                assert(i == j);
                assert(upsert(cs, c@) == cs.update(j as int, c@));
            }
            let ghost cm = c@;
            creds.set(j, c);
            assert(models(creds@) =~= cs.update(j as int, cm));
            return;
        }
        j += 1;
    }
    creds.push(c);
    assert(models(creds@) =~= cs.push(c@));
}

/// Closes the open section, if any, into its record.
fn close_section(creds: &mut Vec<Credential>, open: Option<Section>) -> (r: Result<(), CredentialsError>)
    requires
        names_unique(models(old(creds)@)),
    ensures
        match close(ReadState { creds: models(old(creds)@), open: block_of(open) }) {
            Ok(cs) => r is Ok && models(final(creds)@) == cs && names_unique(models(final(creds)@)),
            Err(f) => r matches Err(e) && failure_of(e) == Some(f),
        },
{
    match open {
        None => Ok(()),
        Some(sec) => {
            let access = match sec.access {
                Some(a) if !a.as_str().is_empty() => a,
                _ => {
                    return Err(
                        CredentialsError::MissingField {
                            profile: sec.name,
                            field: CredentialField::AccessKeyId,
                        },
                    );
                },
            };
            let secret = match sec.secret {
                Some(s) if !s.as_str().is_empty() => s,
                _ => {
                    return Err(
                        CredentialsError::MissingField {
                            profile: sec.name,
                            field: CredentialField::SecretAccessKey,
                        },
                    );
                },
            };
            upsert_credential(
                creds,
                Credential { name: sec.name, aws_access_key_id: access, aws_secret_access_key: secret },
            );
            Ok(())
        },
    }
}

proof fn lemma_failure_sticks(lines: Seq<Seq<char>>, m: nat, n: nat)
    requires
        m <= n,
        read_lines(lines, m) is Err,
    ensures
        read_lines(lines, n) == read_lines(lines, m),
    decreases n - m,
{
    if m < n {
        lemma_failure_sticks(lines, m, (n - 1) as nat);
    }
}

/// Reads the credential records of a credentials text: one per section
/// name, in order of first appearance, each with the values of the last
/// section of that name. Fails at the first line outside the format or the
/// first section that lacks a key; no partial result is returned.
pub fn parse_credentials(text: &str) -> (r: Result<Vec<Credential>, CredentialsError>)
    ensures
        match parse_model(text@) {
            Ok(cs) => r matches Ok(v) && models(v@) == cs,
            Err(f) => r matches Err(e) && failure_of(e) == Some(f),
        },
        r matches Ok(v) ==> names_unique(models(v@)),
{
    let chars = chars_of(text);
    let bounds = line_bounds(&chars);
    let ghost lines = lines_of(text@);
    let mut creds: Vec<Credential> = Vec::new();
    let mut open: Option<Section> = None;
    let mut k: usize = 0;
    assert(models(creds@) =~= Seq::<CredentialModel>::empty());
    while k < bounds.len()
        invariant
            chars@ == text@,
            lines == lines_of(chars@),
            bounds@.len() == lines.len(),
            k <= bounds@.len(),
            forall|l: int|
                0 <= l < bounds@.len() ==> {
                    &&& (#[trigger] bounds@[l]).0 <= bounds@[l].1 <= chars@.len()
                    &&& chars@.subrange(bounds@[l].0 as int, bounds@[l].1 as int) == lines[l]
                },
            read_lines(lines, k as nat) == Ok::<ReadState, ParseFailure>(
                ReadState { creds: models(creds@), open: block_of(open) },
            ),
            names_unique(models(creds@)),
        decreases bounds@.len() - k,
    {
        let (st, en) = bounds[k];
        let kind = read_line(text, &chars, st, en);
        let ghost before = ReadState { creds: models(creds@), open: block_of(open) };
        assert(read_lines(lines, (k + 1) as nat) == step(before, lines[k as int], (k + 1) as nat));
        match kind {
            LineRead::Ignored => {},
            LineRead::Invalid => {
                proof {
                    lemma_failure_sticks(lines, (k + 1) as nat, lines.len());
                }
                return Err(CredentialsError::Syntax(k + 1));
            },
            LineRead::Header(name) => {
                let prev = open;
                open = None;
                match close_section(&mut creds, prev) {
                    Ok(()) => {},
                    Err(e) => {
                        proof {
                            lemma_failure_sticks(lines, (k + 1) as nat, lines.len());
                        }
                        return Err(e);
                    },
                }
                open = Some(Section { name, access: None, secret: None });
            },
            LineRead::Entry(key, value) => {
                match open {
                    None => {
                        proof {
                            lemma_failure_sticks(lines, (k + 1) as nat, lines.len());
                        }
                        return Err(CredentialsError::Syntax(k + 1));
                    },
                    Some(sec) => {
                        open = Some(set_section_key(sec, &key, value));
                    },
                }
            },
        }
        k += 1;
    }
    match close_section(&mut creds, open) {
        Ok(()) => Ok(creds),
        Err(e) => Err(e),
    }
}

/// `<home>/.aws/credentials`, joined as a path.
pub open spec fn default_path(home: Seq<char>) -> Seq<char> {
    if home.len() == 0 {
        ".aws/credentials"@
    } else if home.last() == '/' {
        home + ".aws/credentials"@
    } else {
        home + "/.aws/credentials"@
    }
}

/// The credentials file to read: the given path, or else the default file
/// under the home directory; `NoHomeDirectory` when neither is known.
pub fn credentials_path(given: Option<String>, home: Option<String>) -> (r: Result<
    String,
    CredentialsError,
>)
    ensures
        given matches Some(p) ==> (r matches Ok(q) && q@ == p@),
        given is None && home is None ==> r == Err::<String, CredentialsError>(
            CredentialsError::NoHomeDirectory,
        ),
        given is None ==> (home matches Some(h) ==> (r matches Ok(q) && q@ == default_path(h@))),
{
    match given {
        Some(p) => Ok(p),
        None => match home {
            None => Err(CredentialsError::NoHomeDirectory),
            Some(h) => {
                let n = h.as_str().unicode_len();
                if n == 0 {
                    Ok(String::from_str(".aws/credentials"))
                } else if h.as_str().get_char(n - 1) == '/' {
                    Ok(h.concat(".aws/credentials"))
                } else {
                    Ok(h.concat("/.aws/credentials"))
                }
            },
        },
    }
}

// ---- laws of the format ----
/// A value with no blank at either end.
pub open spec fn plain(s: Seq<char>) -> bool {
    s.len() > 0 && !is_blank(s[0]) && !is_blank(s.last())
}

pub open spec fn well_formed(c: CredentialModel) -> bool {
    plain(c.name) && plain(c.access_key_id) && plain(c.secret_access_key)
}

pub open spec fn header_line(name: Seq<char>) -> Seq<char> {
    seq!['['] + name + seq![']']
}

pub open spec fn entry_line(key: Seq<char>, value: Seq<char>) -> Seq<char> {
    key + seq!['='] + value
}

/// The three lines of a complete section for `c`.
pub open spec fn section_lines(c: CredentialModel) -> Seq<Seq<char>> {
    seq![
        header_line(c.name),
        entry_line("aws_access_key_id"@, c.access_key_id),
        entry_line("aws_secret_access_key"@, c.secret_access_key),
    ]
}

/// A file made of one complete section per record, in order.
pub open spec fn file_lines(cs: Seq<CredentialModel>) -> Seq<Seq<char>>
    decreases cs.len(),
{
    if cs.len() == 0 {
        Seq::empty()
    } else {
        file_lines(cs.drop_last()) + section_lines(cs.last())
    }
}

/// Every record of `cs` applied in turn, each replacing the one of its name.
pub open spec fn upsert_all(cs: Seq<CredentialModel>) -> Seq<CredentialModel>
    decreases cs.len(),
{
    if cs.len() == 0 {
        Seq::empty()
    } else {
        upsert(upsert_all(cs.drop_last()), cs.last())
    }
}

proof fn lemma_trim_plain(s: Seq<char>)
    requires
        plain(s),
    ensures
        trim(s) == s,
{
}

proof fn lemma_first_index_split(p: Seq<char>, q: Seq<char>)
    requires
        forall|i: int| 0 <= i < p.len() ==> p[i] != '=',
    ensures
        first_index(p + seq!['='] + q, '=') == p.len(),
    decreases p.len(),
{
    if p.len() > 0 {
        assert((p + seq!['='] + q).drop_first() =~= p.drop_first() + seq!['='] + q);
        lemma_first_index_split(p.drop_first(), q);
    }
}

proof fn lemma_classify_header(name: Seq<char>)
    requires
        plain(name),
    ensures
        classify(header_line(name)) == LineKind::Header(name),
{
    let t = header_line(name);
    assert(t[0] == '[');
    assert(t.last() == ']');
    lemma_trim_plain(t);
    assert(t.subrange(1, t.len() - 1) =~= name);
    lemma_trim_plain(name);
}

proof fn lemma_classify_entry(key: Seq<char>, value: Seq<char>)
    requires
        plain(key),
        plain(value),
        key[0] != '[' && key[0] != ';' && key[0] != '#',
        forall|i: int| 0 <= i < key.len() ==> key[i] != '=',
    ensures
        classify(entry_line(key, value)) == LineKind::Entry(key, value),
{
    let t = entry_line(key, value);
    assert(t[0] == key[0]);
    assert(t.last() == value.last());
    lemma_trim_plain(t);
    lemma_first_index_split(key, value);
    assert(t.take(key.len() as int) =~= key);
    assert(t.skip(key.len() as int + 1) =~= value);
    lemma_trim_plain(key);
    lemma_trim_plain(value);
}

proof fn lemma_keys_are_plain()
    ensures
        plain("aws_access_key_id"@),
        plain("aws_secret_access_key"@),
        "aws_access_key_id"@ != "aws_secret_access_key"@,
        "aws_access_key_id"@[0] == 'a',
        "aws_secret_access_key"@[0] == 'a',
        forall|i: int| 0 <= i < "aws_access_key_id"@.len() ==> "aws_access_key_id"@[i] != '=',
        forall|i: int|
            0 <= i < "aws_secret_access_key"@.len() ==> "aws_secret_access_key"@[i] != '=',
{
    reveal_strlit("aws_access_key_id");
    reveal_strlit("aws_secret_access_key");
}

proof fn lemma_prefix(a: Seq<Seq<char>>, b: Seq<Seq<char>>, n: nat)
    requires
        n <= a.len(),
    ensures
        read_lines(a + b, n) == read_lines(a, n),
    decreases n,
{
    if n > 0 {
        lemma_prefix(a, b, (n - 1) as nat);
        assert((a + b)[n - 1] == a[n - 1]);
    }
}

proof fn lemma_file_len(cs: Seq<CredentialModel>)
    ensures
        file_lines(cs).len() == 3 * cs.len(),
    decreases cs.len(),
{
    if cs.len() > 0 {
        lemma_file_len(cs.drop_last());
    }
}

/// The state after reading a file of complete sections: the last one is
/// still open.
pub open spec fn state_after(cs: Seq<CredentialModel>) -> ReadState {
    if cs.len() == 0 {
        ReadState { creds: Seq::empty(), open: None }
    } else {
        ReadState {
            creds: upsert_all(cs.drop_last()),
            open: Some(
                Block {
                    name: cs.last().name,
                    access: Some(cs.last().access_key_id),
                    secret: Some(cs.last().secret_access_key),
                },
            ),
        }
    }
}

proof fn lemma_read_file(cs: Seq<CredentialModel>)
    requires
        forall|i: int| 0 <= i < cs.len() ==> well_formed(#[trigger] cs[i]),
    ensures
        read_lines(file_lines(cs), file_lines(cs).len()) == Ok::<ReadState, ParseFailure>(
            state_after(cs),
        ),
        close(state_after(cs)) == Ok::<Seq<CredentialModel>, ParseFailure>(upsert_all(cs)),
    decreases cs.len(),
{
    lemma_file_len(cs);
    if cs.len() > 0 {
        let init = cs.drop_last();
        let c = cs.last();
        assert(well_formed(cs[cs.len() - 1]));
        assert forall|i: int| 0 <= i < init.len() implies well_formed(#[trigger] init[i]) by {
            assert(init[i] == cs[i]);
        }
        lemma_read_file(init);
        lemma_file_len(init);
        let a = file_lines(init);
        let lines = file_lines(cs);
        let l = a.len() as int;
        lemma_prefix(a, section_lines(c), a.len());
        lemma_keys_are_plain();
        lemma_classify_header(c.name);
        lemma_classify_entry("aws_access_key_id"@, c.access_key_id);
        lemma_classify_entry("aws_secret_access_key"@, c.secret_access_key);
        assert(lines[l] == header_line(c.name));
        assert(lines[l + 1] == entry_line("aws_access_key_id"@, c.access_key_id));
        assert(lines[l + 2] == entry_line("aws_secret_access_key"@, c.secret_access_key));
        let s1 = ReadState {
            creds: upsert_all(init),
            open: Some(Block { name: c.name, access: None, secret: None }),
        };
        assert(read_lines(lines, (l + 1) as nat) == Ok::<ReadState, ParseFailure>(s1));
        let s2 = ReadState {
            creds: upsert_all(init),
            open: Some(Block { name: c.name, access: Some(c.access_key_id), secret: None }),
        };
        assert(read_lines(lines, (l + 2) as nat) == Ok::<ReadState, ParseFailure>(s2));
        assert(read_lines(lines, (l + 3) as nat) == Ok::<ReadState, ParseFailure>(
            state_after(cs),
        ));
    }
}

/// Reading a file of well-formed sections gives each section's record, in
/// order, a later section replacing an earlier one of the same name.
pub proof fn lemma_sections_parse(cs: Seq<CredentialModel>)
    requires
        forall|i: int| 0 <= i < cs.len() ==> well_formed(#[trigger] cs[i]),
    ensures
        parse_lines(file_lines(cs)) == Ok::<Seq<CredentialModel>, ParseFailure>(upsert_all(cs)),
{
    lemma_read_file(cs);
}

proof fn lemma_upsert_all_distinct(cs: Seq<CredentialModel>)
    requires
        names_unique(cs),
    ensures
        upsert_all(cs) == cs,
    decreases cs.len(),
{
    if cs.len() > 0 {
        let init = cs.drop_last();
        assert(names_unique(init)) by {
            assert forall|i: int, j: int| 0 <= i < j < init.len() implies (#[trigger] init[i]).name
                != (#[trigger] init[j]).name by {
                assert(init[i] == cs[i] && init[j] == cs[j]);
            }
        }
        lemma_upsert_all_distinct(init);
        if has_name(init, cs.last().name) {
            let i = choose|i: int| 0 <= i < init.len() && (#[trigger] init[i]).name == cs.last().name;
            assert(cs[i] == init[i]);
        }
        assert(init.push(cs.last()) =~= cs);
    }
}

/// A file of N well-formed sections with distinct names parses to exactly
/// those N records, each under its section's name.
pub proof fn lemma_distinct_sections_parse(cs: Seq<CredentialModel>)
    requires
        forall|i: int| 0 <= i < cs.len() ==> well_formed(#[trigger] cs[i]),
        names_unique(cs),
    ensures
        parse_lines(file_lines(cs)) == Ok::<Seq<CredentialModel>, ParseFailure>(cs),
{
    lemma_sections_parse(cs);
    lemma_upsert_all_distinct(cs);
}

/// Two sections with one name leave one record, holding the values of the
/// later section.
pub proof fn lemma_duplicate_section_last_wins(first: CredentialModel, second: CredentialModel)
    requires
        well_formed(first),
        well_formed(second),
        first.name == second.name,
    ensures
        parse_lines(file_lines(seq![first, second])) == Ok::<Seq<CredentialModel>, ParseFailure>(
            seq![second],
        ),
{
    let cs = seq![first, second];
    lemma_sections_parse(cs);
    assert(cs.drop_last() =~= seq![first]);
    assert(seq![first].drop_last() =~= Seq::<CredentialModel>::empty());
    assert(upsert_all(seq![first]) =~= seq![first]) by {
        let empty = Seq::<CredentialModel>::empty();
        assert(upsert_all(seq![first]) == upsert(upsert_all(empty), first));
        assert(upsert_all(empty) == empty);
        assert(!has_name(empty, first.name));
        assert(empty.push(first) =~= seq![first]);
    }
    assert(has_name(seq![first], second.name)) by {
        assert(seq![first][0].name == second.name);
    }
    assert(upsert(seq![first], second) =~= seq![second]);
}

/// A section that lacks its secret key fails the whole parse, naming that
/// section and field, whatever complete sections come before it.
pub proof fn lemma_missing_secret_fails(cs: Seq<CredentialModel>, c: CredentialModel)
    requires
        forall|i: int| 0 <= i < cs.len() ==> well_formed(#[trigger] cs[i]),
        well_formed(c),
    ensures
        parse_lines(
            file_lines(cs) + seq![
                header_line(c.name),
                entry_line("aws_access_key_id"@, c.access_key_id),
            ],
        ) == Err::<Seq<CredentialModel>, ParseFailure>(
            ParseFailure::MissingField(c.name, CredentialField::SecretAccessKey),
        ),
{
    lemma_read_file(cs);
    lemma_file_len(cs);
    let a = file_lines(cs);
    let tail = seq![header_line(c.name), entry_line("aws_access_key_id"@, c.access_key_id)];
    let lines = a + tail;
    let l = a.len() as int;
    lemma_prefix(a, tail, a.len());
    lemma_keys_are_plain();
    lemma_classify_header(c.name);
    lemma_classify_entry("aws_access_key_id"@, c.access_key_id);
    assert(lines[l] == header_line(c.name));
    assert(lines[l + 1] == entry_line("aws_access_key_id"@, c.access_key_id));
    let s2 = ReadState {
        creds: upsert_all(cs),
        open: Some(Block { name: c.name, access: Some(c.access_key_id), secret: None }),
    };
    assert(read_lines(lines, (l + 1) as nat) is Ok);
    assert(read_lines(lines, (l + 2) as nat) == Ok::<ReadState, ParseFailure>(s2));
}

} // verus!
