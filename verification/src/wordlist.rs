//! Where the candidate labels come from: the built-in list, a list of the
//! SecLists collection, or a file of the caller's choosing.

use vstd::prelude::*;
use vstd::string::*;
use crate::results::texts;

verus! {

/// The list of labels to scan with.
#[derive(Debug, Clone, Copy, PartialEq, Eq)]
pub enum WordlistType {
    /// The built-in list.
    Light,
    /// The 5000 most common subdomains of SecLists.
    Top5000,
    /// The 20000 most common subdomains of SecLists.
    Top20000,
    /// The 110000 most common subdomains of SecLists.
    Top110000,
    /// A file named by the caller.
    Custom,
}

/// Where the labels are to be read from.
#[derive(Debug, Clone, PartialEq, Eq)]
pub enum WordlistSource {
    /// The built-in list.
    Builtin,
    /// The file of this name in the SecLists directory.
    SecLists(String),
    /// The file at this path.
    File(String),
}

/// Why no list of labels could be had.
#[derive(Debug, Clone, PartialEq, Eq)]
pub enum WordlistError {
    /// A file of the caller's was asked for and no path was given.
    CustomPathMissing,
    /// None of the directories in which SecLists is looked for exists.
    SecListsMissing,
    /// There is no file at this path.
    FileMissing(String),
}

/// The labels of the built-in list.
pub open spec fn default_labels() -> Seq<Seq<char>> {
    seq![
        "www"@,
        "mail"@,
        "remote"@,
        "blog"@,
        "webmail"@,
        "server"@,
        "ns1"@,
        "ns2"@,
        "smtp"@,
        "secure"@,
        "vpn"@,
        "m"@,
        "shop"@,
        "ftp"@,
        "mail2"@,
        "test"@,
        "portal"@,
        "ns"@,
        "ww1"@,
        "host"@,
        "support"@,
        "dev"@,
        "web"@,
        "bbs"@,
        "ww42"@,
        "mx"@,
        "email"@,
        "cloud"@,
        "1"@,
        "2"@,
        "forum"@,
        "admin"@,
        "api"@,
        "cdn"@,
        "stage"@,
        "gw"@,
        "dns"@,
        "download"@,
        "demo"@,
        "dashboard"@,
        "app"@,
        "beta"@,
        "auth"@,
        "cms"@,
        "testing"@,
    ]
}

/// The directories in which SecLists is looked for when the caller names
/// none, or the one named does not exist.
pub open spec fn standard_dirs() -> Seq<Seq<char>> {
    seq![
        "/usr/share/wordlists/seclists/Discovery/DNS/"@,
        "/usr/share/seclists/Discovery/DNS/"@,
        "/opt/seclists/Discovery/DNS/"@,
        "/usr/local/share/seclists/Discovery/DNS/"@,
    ]
}

/// The directories to try, in the order in which they are tried: the
/// caller's own first.
pub open spec fn search_dirs(custom: Option<Seq<char>>) -> Seq<Seq<char>> {
    match custom {
        Some(dir) => seq![dir] + standard_dirs(),
        None => standard_dirs(),
    }
}

/// The text of a string that may be missing.
pub open spec fn text_of(given: Option<String>) -> Option<Seq<char>> {
    match given {
        Some(text) => Some(text@),
        None => None,
    }
}

/// The name of the SecLists file for a list, for the lists that come from
/// SecLists.
pub open spec fn seclists_file_of(kind: WordlistType) -> Option<Seq<char>> {
    match kind {
        WordlistType::Top5000 => Some("subdomains-top1million-5000.txt"@),
        WordlistType::Top20000 => Some("subdomains-top1million-20000.txt"@),
        WordlistType::Top110000 => Some("subdomains-top1million-110000.txt"@),
        _ => None,
    }
}

/// White space as Unicode defines it.
pub open spec fn is_whitespace_char(c: char) -> bool {
    let u = c as u32;
    ||| 0x09 <= u <= 0x0D
    ||| u == 0x20
    ||| u == 0x85
    ||| u == 0xA0
    ||| u == 0x1680
    ||| 0x2000 <= u <= 0x200A
    ||| u == 0x2028
    ||| u == 0x2029
    ||| u == 0x202F
    ||| u == 0x205F
    ||| u == 0x3000
}

/// A line is blank if it holds nothing but white space.
pub open spec fn is_blank_text(line: Seq<char>) -> bool {
    forall|i: int| 0 <= i < line.len() ==> is_whitespace_char(#[trigger] line[i])
}

/// The lines that are not blank, in their order.
pub open spec fn nonblank(lines: Seq<String>) -> Seq<String> {
    lines.filter(|line: String| !is_blank_text(line@))
}

/// The first position at which both a directory is listed and it exists.
pub open spec fn is_first_existing(dirs: Seq<String>, exists: Seq<bool>, at: int) -> bool {
    &&& 0 <= at < dirs.len()
    &&& at < exists.len()
    &&& exists[at]
    &&& forall|j: int| 0 <= j < at ==> !#[trigger] exists[j]
}

impl WordlistError {
    /// What the error says to the user.
    pub open spec fn message_text(&self) -> Seq<char> {
        match self {
            WordlistError::CustomPathMissing => "Custom wordlist path must be provided when using Custom wordlist type"@,
            WordlistError::SecListsMissing => "Could not find SecLists wordlist directory. Please install SecLists or provide a custom path using --seclists-path"@,
            WordlistError::FileMissing(path) => "Wordlist not found at path: "@ + path@,
        }
    }

    /// What the error says to the user.
    pub fn message(&self) -> (text: String)
        ensures
            text@ == self.message_text(),
    {
        match self {
            WordlistError::CustomPathMissing => String::from_str(
                "Custom wordlist path must be provided when using Custom wordlist type",
            ),
            WordlistError::SecListsMissing => String::from_str(
                "Could not find SecLists wordlist directory. Please install SecLists or provide a custom path using --seclists-path",
            ),
            WordlistError::FileMissing(path) => {
                let mut text = String::from_str("Wordlist not found at path: ");
                text.append(path.as_str());
                text
            },
        }
    }
}

/// The built-in list of labels.
pub fn default_wordlist() -> (labels: Vec<String>)
    ensures
        texts(labels@) == default_labels(),
{
    let mut labels: Vec<String> = Vec::new();
    labels.push(String::from_str("www"));
    labels.push(String::from_str("mail"));
    labels.push(String::from_str("remote"));
    labels.push(String::from_str("blog"));
    labels.push(String::from_str("webmail"));
    labels.push(String::from_str("server"));
    labels.push(String::from_str("ns1"));
    labels.push(String::from_str("ns2"));
    labels.push(String::from_str("smtp"));
    labels.push(String::from_str("secure"));
    labels.push(String::from_str("vpn"));
    labels.push(String::from_str("m"));
    labels.push(String::from_str("shop"));
    labels.push(String::from_str("ftp"));
    labels.push(String::from_str("mail2"));
    labels.push(String::from_str("test"));
    labels.push(String::from_str("portal"));
    labels.push(String::from_str("ns"));
    labels.push(String::from_str("ww1"));
    labels.push(String::from_str("host"));
    labels.push(String::from_str("support"));
    labels.push(String::from_str("dev"));
    labels.push(String::from_str("web"));
    labels.push(String::from_str("bbs"));
    labels.push(String::from_str("ww42"));
    labels.push(String::from_str("mx"));
    labels.push(String::from_str("email"));
    labels.push(String::from_str("cloud"));
    labels.push(String::from_str("1"));
    labels.push(String::from_str("2"));
    labels.push(String::from_str("forum"));
    labels.push(String::from_str("admin"));
    labels.push(String::from_str("api"));
    labels.push(String::from_str("cdn"));
    labels.push(String::from_str("stage"));
    labels.push(String::from_str("gw"));
    labels.push(String::from_str("dns"));
    labels.push(String::from_str("download"));
    labels.push(String::from_str("demo"));
    labels.push(String::from_str("dashboard"));
    labels.push(String::from_str("app"));
    labels.push(String::from_str("beta"));
    labels.push(String::from_str("auth"));
    labels.push(String::from_str("cms"));
    labels.push(String::from_str("testing"));
    assert(texts(labels@) =~= default_labels());
    labels
}

/// The name of the SecLists file for a list, for the lists that come from
/// SecLists.
pub fn seclists_filename(kind: WordlistType) -> (name: Option<&'static str>)
    ensures
        name is Some <==> seclists_file_of(kind) is Some,
        name matches Some(text) ==> seclists_file_of(kind) == Some(text@),
{
    match kind {
        WordlistType::Top5000 => Some("subdomains-top1million-5000.txt"),
        WordlistType::Top20000 => Some("subdomains-top1million-20000.txt"),
        WordlistType::Top110000 => Some("subdomains-top1million-110000.txt"),
        _ => None,
    }
}

/// Decides where the labels of a list are read from. A file of the
/// caller's needs its path; the other lists ignore it.
pub fn wordlist_source(kind: WordlistType, custom_path: &Option<String>) -> (source: Result<
    WordlistSource,
    WordlistError,
>)
    ensures
        kind == WordlistType::Light ==> source == Ok::<WordlistSource, WordlistError>(
            WordlistSource::Builtin,
        ),
        seclists_file_of(kind) is Some ==> (source matches Ok(WordlistSource::SecLists(name))
            && Some(name@) == seclists_file_of(kind)),
        kind == WordlistType::Custom ==> match *custom_path {
            Some(path) => source matches Ok(WordlistSource::File(chosen)) && chosen@ == path@,
            None => source == Err::<WordlistSource, WordlistError>(WordlistError::CustomPathMissing),
        },
{
    match kind {
        WordlistType::Light => Ok(WordlistSource::Builtin),
        WordlistType::Custom => match custom_path {
            Some(path) => Ok(WordlistSource::File(path.clone())),
            None => Err(WordlistError::CustomPathMissing),
        },
        _ => match seclists_filename(kind) {
            Some(name) => Ok(WordlistSource::SecLists(String::from_str(name))),
            None => Err(WordlistError::SecListsMissing),
        },
    }
}

/// The directories in which SecLists is looked for, in the order in which
/// they are tried: the caller's own first, if there is one.
pub fn seclists_search_dirs(custom: &Option<String>) -> (dirs: Vec<String>)
    ensures
        texts(dirs@) == search_dirs(text_of(*custom)),
{
    let mut dirs: Vec<String> = Vec::new();
    match custom {
        Some(dir) => {
            dirs.push(dir.clone());
        },
        None => {},
    }
    dirs.push(String::from_str("/usr/share/wordlists/seclists/Discovery/DNS/"));
    dirs.push(String::from_str("/usr/share/seclists/Discovery/DNS/"));
    dirs.push(String::from_str("/opt/seclists/Discovery/DNS/"));
    dirs.push(String::from_str("/usr/local/share/seclists/Discovery/DNS/"));
    proof {
        assert(texts(dirs@) =~= search_dirs(text_of(*custom)));
    }
    dirs
}

/// Picks the first directory that exists: `exists[i]` tells whether
/// `dirs[i]` does. A directory without an answer counts as missing.
pub fn choose_seclists_dir(dirs: &Vec<String>, exists: &Vec<bool>) -> (chosen: Result<
    String,
    WordlistError,
>)
    ensures
        chosen matches Ok(dir) ==> exists|at: int| #[trigger]
            is_first_existing(dirs@, exists@, at) && dir == dirs@[at],
        chosen matches Err(e) ==> e == WordlistError::SecListsMissing && forall|j: int|
            0 <= j < dirs@.len() && j < exists@.len() ==> !#[trigger] exists@[j],
{
    let mut i: usize = 0;
    while i < dirs.len() && i < exists.len()
        invariant
            forall|j: int| 0 <= j < i ==> !#[trigger] exists@[j],
        decreases dirs@.len() - i,
    {
        if exists[i] {
            assert(is_first_existing(dirs@, exists@, i as int));
            return Ok(dirs[i].clone());
        }
        i += 1;
    }
    Err(WordlistError::SecListsMissing)
}

/// Accepts the path of a list file if the file exists.
pub fn wordlist_file(path: &str, exists: bool) -> (file: Result<String, WordlistError>)
    ensures
        exists ==> (file matches Ok(accepted) && accepted@ == path@),
        !exists ==> (file matches Err(WordlistError::FileMissing(missing)) && missing@ == path@),
{
    if exists {
        Ok(String::from_str(path))
    } else {
        Err(WordlistError::FileMissing(String::from_str(path)))
    }
}

/// Whether `c` is white space.
pub fn is_whitespace(c: char) -> (white: bool)
    ensures
        white == is_whitespace_char(c),
{
    let u: u32 = c as u32;
    (0x09 <= u && u <= 0x0D) || u == 0x20 || u == 0x85 || u == 0xA0 || u == 0x1680 || (0x2000 <= u
        && u <= 0x200A) || u == 0x2028 || u == 0x2029 || u == 0x202F || u == 0x205F || u == 0x3000
}

/// Whether `line` holds nothing but white space.
pub fn is_blank(line: &str) -> (blank: bool)
    ensures
        blank == is_blank_text(line@),
{
    let n: usize = line.unicode_len();
    let mut i: usize = 0;
    while i < n
        invariant
            i <= n,
            n == line@.len(),
            forall|j: int| 0 <= j < i ==> is_whitespace_char(#[trigger] line@[j]),
        decreases n - i,
    {
        if !is_whitespace(line.get_char(i)) {
            return false;
        }
        i += 1;
    }
    true
}

/// Drops the blank lines and keeps the others in their order.
pub fn nonblank_lines(lines: Vec<String>) -> (kept: Vec<String>)
    ensures
        kept@ == nonblank(lines@),
{
    let ghost pred = |line: String| !is_blank_text(line@);
    let mut kept: Vec<String> = Vec::new();
    let mut i: usize = 0;
    proof {
        reveal(Seq::filter);
        assert(lines@.take(0).filter(pred) =~= Seq::<String>::empty());
    }
    while i < lines.len()
        invariant
            i <= lines@.len(),
            pred == |line: String| !is_blank_text(line@),
            kept@ == lines@.take(i as int).filter(pred),
        decreases lines@.len() - i,
    {
        proof {
            reveal(Seq::filter);
            assert(lines@.take(i + 1).drop_last() =~= lines@.take(i as int));
            assert(lines@.take(i + 1).last() == lines@[i as int]);
        }
        if !is_blank(lines[i].as_str()) {
            kept.push(lines[i].clone());
        }
        i += 1;
    }
    assert(lines@.take(lines@.len() as int) =~= lines@);
    kept
}

} // verus!
