use vstd::prelude::*;

verus! {

broadcast use vstd::std_specs::vec::group_vec_axioms, vstd::seq::group_seq_axioms;

// ---------------------------------------------------------------------------
// Small text utilities: string equality, the extension-to-MIME-type lookup
// table, and case-insensitive ordering of names.
// ---------------------------------------------------------------------------

/// Whether two strings hold the same characters.
#[verifier::loop_isolation(false)]
pub fn str_eq(a: &str, b: &str) -> (r: bool)
    ensures
        r == (a@ == b@),
{
    let n = a.unicode_len();
    if n != b.unicode_len() {
        return false;
    }
    let mut i: usize = 0;
    while i < n
        invariant
            0 <= i <= n,
            n == a@.len() && n == b@.len(),
            forall|k: int| 0 <= k < i ==> a@[k] == b@[k],
        decreases n - i,
    {
        if a.get_char(i) != b.get_char(i) {
            return false;
        }
        i = i + 1;
    }
    proof {
        assert(a@ =~= b@);
    }
    true
}

/// The MIME type served for a file extension, exactly as the lookup table
/// states it; anything unknown is served as plain text.
pub open spec fn content_type_spec(ext: Option<Seq<char>>) -> Seq<char> {
    if ext is None {
        "text/plain"@
    } else {
        let e = ext.unwrap();
        if e == ".aac"@ {
            "audio/aac"@
        } else if e == ".abw"@ {
            "application/x-abiword"@
        } else if e == ".apng"@ {
            "image/apng"@
        } else if e == ".arc"@ {
            "application/x-freearc"@
        } else if e == ".avif"@ {
            "image/avif"@
        } else if e == ".avi"@ {
            "video/x-msvideo"@
        } else if e == ".azw"@ {
            "application/vnd.amazon.ebook"@
        } else if e == ".bin"@ {
            "application/octet-stream"@
        } else if e == ".bmp"@ {
            "image/bmp"@
        } else if e == ".bz"@ {
            "application/x-bzip"@
        } else if e == ".bz2"@ {
            "application/x-bzip2"@
        } else if e == ".cda"@ {
            "application/x-cdf"@
        } else if e == ".csh"@ {
            "application/x-csh"@
        } else if e == ".css"@ {
            "text/css"@
        } else if e == ".csv"@ {
            "text/csv"@
        } else if e == ".doc"@ {
            "application/msword"@
        } else if e == ".docx"@ {
            "application/vnd.openxmlformats-officedocument.wordprocessingml.document"@
        } else if e == ".eot"@ {
            "application/vnd.ms-fontobject"@
        } else if e == ".epub"@ {
            "application/epub+zip"@
        } else if e == ".gz"@ {
            "application/gzip"@
        } else if e == ".gif"@ {
            "image/gif"@
        } else if e == ".htm"@ || e == ".html"@ {
            "text/html"@
        } else if e == ".ico"@ {
            "image/vnd.microsoft.icon"@
        } else if e == ".ics"@ {
            "text/calendar"@
        } else if e == ".jar"@ {
            "application/java-archive"@
        } else if e == ".jpeg"@ || e == ".jpg"@ {
            "image/jpeg"@
        } else if e == ".mjs"@ || e == ".js"@ {
            "text/javascript"@
        } else if e == ".json"@ {
            "application/json"@
        } else if e == ".jsonld"@ {
            "application/ld+json"@
        } else if e == ".mid,"@ {
            "audio/midi"@
        } else if e == ".mp3"@ {
            "audio/mpeg"@
        } else if e == ".mp4"@ {
            "video/mp4"@
        } else if e == ".mpeg"@ {
            "video/mpeg"@
        } else if e == ".mpkg"@ {
            "application/vnd.apple.installer+xml"@
        } else if e == ".odp"@ {
            "application/vnd.oasis.opendocument.presentation"@
        } else if e == ".ods"@ {
            "application/vnd.oasis.opendocument.spreadsheet"@
        } else if e == ".odt"@ {
            "application/vnd.oasis.opendocument.text"@
        } else if e == ".oga"@ {
            "audio/ogg"@
        } else if e == ".ogv"@ {
            "video/ogg"@
        } else if e == ".ogx"@ {
            "application/ogg"@
        } else if e == ".opus"@ {
            "audio/opus"@
        } else if e == ".otf"@ {
            "font/otf"@
        } else if e == ".png"@ {
            "image/png"@
        } else if e == ".pdf"@ {
            "application/pdf"@
        } else if e == ".php"@ {
            "application/x-httpd-php"@
        } else if e == ".ppt"@ {
            "application/vnd.ms-powerpoint"@
        } else if e == ".pptx"@ {
            "application/vnd.openxmlformats-officedocument.presentationml.presentation"@
        } else if e == ".rar"@ {
            "application/vnd.rar"@
        } else if e == ".rtf"@ {
            "application/rtf"@
        } else if e == ".sh"@ {
            "application/x-sh"@
        } else if e == ".svg"@ {
            "image/svg+xml"@
        } else if e == ".tar"@ {
            "application/x-tar"@
        } else if e == ".tif"@ || e == ".tiff"@ {
            "image/tiff"@
        } else if e == ".ts"@ {
            "video/mp2t"@
        } else if e == ".ttf"@ {
            "font/ttf"@
        } else if e == ".vsd"@ {
            "application/vnd.visio"@
        } else if e == ".wav"@ {
            "audio/wav"@
        } else if e == ".weba"@ {
            "audio/webm"@
        } else if e == ".webm"@ {
            "video/webm"@
        } else if e == ".webp"@ {
            "image/webp"@
        } else if e == ".woff"@ {
            "font/woff"@
        } else if e == ".woff2"@ {
            "font/woff2"@
        } else if e == ".xhtml"@ {
            "application/xhtml+xml"@
        } else if e == ".xls"@ {
            "application/vnd.ms-excel"@
        } else if e == ".xlsx"@ {
            "application/vnd.openxmlformats-officedocument.spreadsheetml.sheet"@
        } else if e == ".xml"@ {
            "application/xml"@
        } else if e == ".xul"@ {
            "application/vnd.mozilla.xul+xml"@
        } else if e == ".zip"@ {
            "application/zip"@
        } else if e == ".3gp"@ {
            "video/3gpp"@
        } else if e == ".3g2"@ {
            "video/3gpp2"@
        } else if e == ".7z"@ {
            "application/x-7z-compressed"@
        } else {
            "text/plain"@
        }
    }
}

/// Looks an extension up in the MIME-type table.
pub fn content_type_from_extension<'a>(ext: Option<&'a str>) -> (r: &'a str)
    ensures
        r@ == content_type_spec(match ext {
            Some(e) => Some(e@),
            None => None,
        }),
{
    let Some(ext) = ext else {
        return "text/plain";
    };
    if str_eq(ext, ".aac") {
        "audio/aac"
    } else if str_eq(ext, ".abw") {
        "application/x-abiword"
    } else if str_eq(ext, ".apng") {
        "image/apng"
    } else if str_eq(ext, ".arc") {
        "application/x-freearc"
    } else if str_eq(ext, ".avif") {
        "image/avif"
    } else if str_eq(ext, ".avi") {
        "video/x-msvideo"
    } else if str_eq(ext, ".azw") {
        "application/vnd.amazon.ebook"
    } else if str_eq(ext, ".bin") {
        "application/octet-stream"
    } else if str_eq(ext, ".bmp") {
        "image/bmp"
    } else if str_eq(ext, ".bz") {
        "application/x-bzip"
    } else if str_eq(ext, ".bz2") {
        "application/x-bzip2"
    } else if str_eq(ext, ".cda") {
        "application/x-cdf"
    } else if str_eq(ext, ".csh") {
        "application/x-csh"
    } else if str_eq(ext, ".css") {
        "text/css"
    } else if str_eq(ext, ".csv") {
        "text/csv"
    } else if str_eq(ext, ".doc") {
        "application/msword"
    } else if str_eq(ext, ".docx") {
        "application/vnd.openxmlformats-officedocument.wordprocessingml.document"
    } else if str_eq(ext, ".eot") {
        "application/vnd.ms-fontobject"
    } else if str_eq(ext, ".epub") {
        "application/epub+zip"
    } else if str_eq(ext, ".gz") {
        "application/gzip"
    } else if str_eq(ext, ".gif") {
        "image/gif"
    } else if str_eq(ext, ".htm") || str_eq(ext, ".html") {
        "text/html"
    } else if str_eq(ext, ".ico") {
        "image/vnd.microsoft.icon"
    } else if str_eq(ext, ".ics") {
        "text/calendar"
    } else if str_eq(ext, ".jar") {
        "application/java-archive"
    } else if str_eq(ext, ".jpeg") || str_eq(ext, ".jpg") {
        "image/jpeg"
    } else if str_eq(ext, ".mjs") || str_eq(ext, ".js") {
        "text/javascript"
    } else if str_eq(ext, ".json") {
        "application/json"
    } else if str_eq(ext, ".jsonld") {
        "application/ld+json"
    } else if str_eq(ext, ".mid,") {
        "audio/midi"
    } else if str_eq(ext, ".mp3") {
        "audio/mpeg"
    } else if str_eq(ext, ".mp4") {
        "video/mp4"
    } else if str_eq(ext, ".mpeg") {
        "video/mpeg"
    } else if str_eq(ext, ".mpkg") {
        "application/vnd.apple.installer+xml"
    } else if str_eq(ext, ".odp") {
        "application/vnd.oasis.opendocument.presentation"
    } else if str_eq(ext, ".ods") {
        "application/vnd.oasis.opendocument.spreadsheet"
    } else if str_eq(ext, ".odt") {
        "application/vnd.oasis.opendocument.text"
    } else if str_eq(ext, ".oga") {
        "audio/ogg"
    } else if str_eq(ext, ".ogv") {
        "video/ogg"
    } else if str_eq(ext, ".ogx") {
        "application/ogg"
    } else if str_eq(ext, ".opus") {
        "audio/opus"
    } else if str_eq(ext, ".otf") {
        "font/otf"
    } else if str_eq(ext, ".png") {
        "image/png"
    } else if str_eq(ext, ".pdf") {
        "application/pdf"
    } else if str_eq(ext, ".php") {
        "application/x-httpd-php"
    } else if str_eq(ext, ".ppt") {
        "application/vnd.ms-powerpoint"
    } else if str_eq(ext, ".pptx") {
        "application/vnd.openxmlformats-officedocument.presentationml.presentation"
    } else if str_eq(ext, ".rar") {
        "application/vnd.rar"
    } else if str_eq(ext, ".rtf") {
        "application/rtf"
    } else if str_eq(ext, ".sh") {
        "application/x-sh"
    } else if str_eq(ext, ".svg") {
        "image/svg+xml"
    } else if str_eq(ext, ".tar") {
        "application/x-tar"
    } else if str_eq(ext, ".tif") || str_eq(ext, ".tiff") {
        "image/tiff"
    } else if str_eq(ext, ".ts") {
        "video/mp2t"
    } else if str_eq(ext, ".ttf") {
        "font/ttf"
    } else if str_eq(ext, ".vsd") {
        "application/vnd.visio"
    } else if str_eq(ext, ".wav") {
        "audio/wav"
    } else if str_eq(ext, ".weba") {
        "audio/webm"
    } else if str_eq(ext, ".webm") {
        "video/webm"
    } else if str_eq(ext, ".webp") {
        "image/webp"
    } else if str_eq(ext, ".woff") {
        "font/woff"
    } else if str_eq(ext, ".woff2") {
        "font/woff2"
    } else if str_eq(ext, ".xhtml") {
        "application/xhtml+xml"
    } else if str_eq(ext, ".xls") {
        "application/vnd.ms-excel"
    } else if str_eq(ext, ".xlsx") {
        "application/vnd.openxmlformats-officedocument.spreadsheetml.sheet"
    } else if str_eq(ext, ".xml") {
        "application/xml"
    } else if str_eq(ext, ".xul") {
        "application/vnd.mozilla.xul+xml"
    } else if str_eq(ext, ".zip") {
        "application/zip"
    } else if str_eq(ext, ".3gp") {
        "video/3gpp"
    } else if str_eq(ext, ".3g2") {
        "video/3gpp2"
    } else if str_eq(ext, ".7z") {
        "application/x-7z-compressed"
    } else {
        "text/plain"
    }
}

/// What lowercasing one character yields. The mapping depends on the
/// character alone: no locale is consulted.
pub uninterp spec fn lower_chars_of(c: char) -> Seq<char>;

/// Relies on char::to_lowercase: the lowercase mapping of a character,
/// possibly several characters, a function of the character alone.
#[verifier::external_body]
fn lower_chars(c: char) -> (r: Vec<char>)
    ensures
        r@ == lower_chars_of(c),
{
    let out: Vec<char> = c.to_lowercase().collect();
    out
}

/// The text with every character replaced by its lowercase mapping, in
/// order.
pub open spec fn lower_flat(s: Seq<char>) -> Seq<char>
    decreases s,
{
    if s.len() == 0 {
        Seq::empty()
    } else {
        lower_flat(s.drop_last()) + lower_chars_of(s.last())
    }
}

/// Lexicographic order on character sequences: the first differing
/// character decides; a proper prefix orders before the longer sequence.
pub open spec fn lex_cmp(a: Seq<char>, b: Seq<char>) -> core::cmp::Ordering
    decreases a.len(),
{
    if a.len() == 0 && b.len() == 0 {
        core::cmp::Ordering::Equal
    } else if a.len() == 0 {
        core::cmp::Ordering::Less
    } else if b.len() == 0 {
        core::cmp::Ordering::Greater
    } else if a.first() != b.first() {
        if a.first() < b.first() {
            core::cmp::Ordering::Less
        } else {
            core::cmp::Ordering::Greater
        }
    } else {
        lex_cmp(a.drop_first(), b.drop_first())
    }
}

/// Sequences equal over a common prefix compare as their remainders do.
pub proof fn lemma_lex_cmp_skip(a: Seq<char>, b: Seq<char>, i: int)
    requires
        0 <= i <= a.len(),
        i <= b.len(),
        forall|k: int| 0 <= k < i ==> a[k] == b[k],
    ensures
        lex_cmp(a, b) == lex_cmp(a.skip(i), b.skip(i)),
    decreases i,
{
    if i > 0 {
        assert(a.drop_first().skip(i - 1) =~= a.skip(i));
        assert(b.drop_first().skip(i - 1) =~= b.skip(i));
        lemma_lex_cmp_skip(a.drop_first(), b.drop_first(), i - 1);
    } else {
        assert(a.skip(0) =~= a);
        assert(b.skip(0) =~= b);
    }
}

/// The lowercase expansion of a string, character by character.
#[verifier::loop_isolation(false)]
fn lower_flat_exec(s: &str) -> (r: Vec<char>)
    ensures
        r@ == lower_flat(s@),
{
    let n = s.unicode_len();
    let mut out: Vec<char> = Vec::new();
    proof {
        assert(s@.take(0) =~= Seq::<char>::empty());
    }
    let mut i: usize = 0;
    while i < n
        invariant
            0 <= i <= n,
            n == s@.len(),
            out@ == lower_flat(s@.take(i as int)),
        decreases n - i,
    {
        proof {
            assert(s@.take(i as int + 1).drop_last() =~= s@.take(i as int));
            assert(s@.take(i as int + 1).last() == s@[i as int]);
        }
        let mut chunk = lower_chars(s.get_char(i));
        out.append(&mut chunk);
        i = i + 1;
    }
    proof {
        assert(s@.take(n as int) =~= s@);
    }
    out
}

/// Orders two names case-insensitively: both are lowercased character by
/// character and the expansions are compared lexicographically.
#[verifier::loop_isolation(false)]
pub fn cmp_ignore_case_utf8(a: &str, b: &str) -> (r: core::cmp::Ordering)
    ensures
        r == lex_cmp(lower_flat(a@), lower_flat(b@)),
{
    let la = lower_flat_exec(a);
    let lb = lower_flat_exec(b);
    let ghost xa = lower_flat(a@);
    let ghost xb = lower_flat(b@);
    let mut i: usize = 0;
    while i < la.len() && i < lb.len()
        invariant
            0 <= i <= la@.len(),
            i <= lb@.len(),
            forall|k: int| 0 <= k < i ==> xa[k] == xb[k],
        decreases la@.len() - i,
    {
        proof {
            lemma_lex_cmp_skip(xa, xb, i as int);
        }
        let ca = la[i];
        let cb = lb[i];
        if ca != cb {
            if ca < cb {
                return core::cmp::Ordering::Less;
            } else {
                return core::cmp::Ordering::Greater;
            }
        }
        i = i + 1;
    }
    proof {
        lemma_lex_cmp_skip(xa, xb, i as int);
        if i == la.len() {
            assert(xa.skip(i as int) =~= Seq::<char>::empty());
        }
        if i == lb.len() {
            assert(xb.skip(i as int) =~= Seq::<char>::empty());
        }
    }
    if la.len() == lb.len() {
        core::cmp::Ordering::Equal
    } else if la.len() < lb.len() {
        core::cmp::Ordering::Less
    } else {
        core::cmp::Ordering::Greater
    }
}

/// The character for one decimal digit.
pub open spec fn digit_char(d: int) -> char {
    if d == 0 {
        '0'
    } else if d == 1 {
        '1'
    } else if d == 2 {
        '2'
    } else if d == 3 {
        '3'
    } else if d == 4 {
        '4'
    } else if d == 5 {
        '5'
    } else if d == 6 {
        '6'
    } else if d == 7 {
        '7'
    } else if d == 8 {
        '8'
    } else {
        '9'
    }
}

/// The decimal notation of a non-negative number, most significant digit
/// first and without leading zeroes.
pub open spec fn dec_str(n: int) -> Seq<char>
    decreases n,
{
    if n < 10 {
        seq![digit_char(n)]
    } else {
        dec_str(n / 10).push(digit_char(n % 10))
    }
}

/// One decimal digit as text.
pub(crate) fn digit_str(d: u64) -> (r: &'static str)
    requires
        d < 10,
    ensures
        r@ == seq![digit_char(d as int)],
{
    proof {
        reveal_strlit("0");
        reveal_strlit("1");
        reveal_strlit("2");
        reveal_strlit("3");
        reveal_strlit("4");
        reveal_strlit("5");
        reveal_strlit("6");
        reveal_strlit("7");
        reveal_strlit("8");
        reveal_strlit("9");
    }
    match d {
        0 => "0",
        1 => "1",
        2 => "2",
        3 => "3",
        4 => "4",
        5 => "5",
        6 => "6",
        7 => "7",
        8 => "8",
        _ => "9",
    }
}

/// The decimal notation of a number.
pub fn u64_to_dec(n: u64) -> (r: String)
    ensures
        r@ == dec_str(n as int),
    decreases n,
{
    if n < 10 {
        return digit_str(n).to_owned();
    }
    let mut s = u64_to_dec(n / 10);
    s.append(digit_str(n % 10));
    proof {
        assert(dec_str((n / 10) as int) + seq![digit_char((n % 10) as int)] =~= dec_str(
            (n / 10) as int,
        ).push(digit_char((n % 10) as int)));
    }
    s
}

/// Compares two strings lexicographically by character.
#[verifier::loop_isolation(false)]
pub fn lex_cmp_str(a: &str, b: &str) -> (r: core::cmp::Ordering)
    ensures
        r == lex_cmp(a@, b@),
{
    let na = a.unicode_len();
    let nb = b.unicode_len();
    let mut i: usize = 0;
    while i < na && i < nb
        invariant
            0 <= i <= na,
            i <= nb,
            na == a@.len() && nb == b@.len(),
            forall|k: int| 0 <= k < i ==> a@[k] == b@[k],
        decreases na - i,
    {
        proof {
            lemma_lex_cmp_skip(a@, b@, i as int);
        }
        let ca = a.get_char(i);
        let cb = b.get_char(i);
        if ca != cb {
            if ca < cb {
                return core::cmp::Ordering::Less;
            } else {
                return core::cmp::Ordering::Greater;
            }
        }
        i = i + 1;
    }
    proof {
        lemma_lex_cmp_skip(a@, b@, i as int);
        if i == na {
            assert(a@.skip(i as int) =~= Seq::<char>::empty());
        }
        if i == nb {
            assert(b@.skip(i as int) =~= Seq::<char>::empty());
        }
    }
    if na == nb {
        core::cmp::Ordering::Equal
    } else if na < nb {
        core::cmp::Ordering::Less
    } else {
        core::cmp::Ordering::Greater
    }
}

/// Swapping the arguments flips the order.
pub proof fn lemma_lex_cmp_flip(a: Seq<char>, b: Seq<char>)
    ensures
        lex_cmp(b, a) == (match lex_cmp(a, b) {
            core::cmp::Ordering::Less => core::cmp::Ordering::Greater,
            core::cmp::Ordering::Equal => core::cmp::Ordering::Equal,
            core::cmp::Ordering::Greater => core::cmp::Ordering::Less,
        }),
    decreases a.len(),
{
    if a.len() > 0 && b.len() > 0 && a.first() == b.first() {
        lemma_lex_cmp_flip(a.drop_first(), b.drop_first());
    }
}

/// Two texts compare as equal exactly when they are the same text.
pub proof fn lemma_lex_cmp_eq(a: Seq<char>, b: Seq<char>)
    ensures
        (lex_cmp(a, b) == core::cmp::Ordering::Equal) <==> a == b,
    decreases a.len(),
{
    if a.len() == 0 && b.len() == 0 {
        assert(a =~= b);
    } else if a.len() > 0 && b.len() > 0 && a.first() == b.first() {
        lemma_lex_cmp_eq(a.drop_first(), b.drop_first());
        if lex_cmp(a, b) == core::cmp::Ordering::Equal {
            assert(a.drop_first() == b.drop_first());
            assert forall|i: int| 0 <= i < a.len() implies a[i] == b[i] by {
                if i > 0 {
                    assert(a[i] == a.drop_first()[i - 1]);
                    assert(b[i] == b.drop_first()[i - 1]);
                }
            }
            assert(a =~= b);
        } else {
            if a == b {
                assert(a.drop_first() == b.drop_first());
            }
        }
    } else {
        if a == b {
            assert(a.len() == b.len());
            if a.len() > 0 {
                assert(a.first() == b.first());
            }
        }
    }
}

/// Strict lexicographic order is transitive.
pub proof fn lemma_lex_cmp_trans_less(a: Seq<char>, b: Seq<char>, c: Seq<char>)
    requires
        lex_cmp(a, b) == core::cmp::Ordering::Less,
        lex_cmp(b, c) == core::cmp::Ordering::Less,
    ensures
        lex_cmp(a, c) == core::cmp::Ordering::Less,
    decreases a.len(),
{
    if a.len() == 0 {
        if c.len() == 0 {
            assert(b.len() == 0);
        }
    } else {
        assert(b.len() > 0);
        assert(c.len() > 0);
        if a.first() == b.first() && b.first() == c.first() {
            lemma_lex_cmp_trans_less(a.drop_first(), b.drop_first(), c.drop_first());
        }
    }
}

/// Where the last dot in the text stands, if any.
pub open spec fn last_dot(s: Seq<char>) -> Option<int>
    decreases s,
{
    if s.len() == 0 {
        None
    } else if s.last() == '.' {
        Some(s.len() - 1)
    } else {
        last_dot(s.drop_last())
    }
}

/// The extension of a file name: what follows the last dot, unless that dot
/// starts the name — a hidden file's leading dot opens no extension.
pub open spec fn extension_spec(s: Seq<char>) -> Option<Seq<char>> {
    match last_dot(s) {
        None => None,
        Some(p) => if p == 0 {
            None
        } else {
            Some(s.subrange(p + 1, s.len() as int))
        },
    }
}

/// The extension of a file name, if it has one.
#[verifier::loop_isolation(false)]
pub fn extension_of(name: &str) -> (r: Option<String>)
    ensures
        match r {
            Some(e) => extension_spec(name@) == Some(e@),
            None => extension_spec(name@) is None,
        },
{
    let n = name.unicode_len();
    let mut dot: Option<usize> = None;
    proof {
        assert(name@.take(0) =~= Seq::<char>::empty());
    }
    let mut i: usize = 0;
    while i < n
        invariant
            0 <= i <= n,
            n == name@.len(),
            match dot {
                Some(p) => last_dot(name@.take(i as int)) == Some(p as int) && p < i,
                None => last_dot(name@.take(i as int)) is None,
            },
        decreases n - i,
    {
        proof {
            assert(name@.take(i as int + 1).drop_last() =~= name@.take(i as int));
            assert(name@.take(i as int + 1).last() == name@[i as int]);
        }
        if name.get_char(i) == '.' {
            dot = Some(i);
        }
        i = i + 1;
    }
    proof {
        assert(name@.take(n as int) =~= name@);
    }
    match dot {
        None => None,
        Some(p) => {
            if p == 0 {
                None
            } else {
                Some(name.substring_char(p + 1, n).to_owned())
            }
        },
    }
}

} // verus!
