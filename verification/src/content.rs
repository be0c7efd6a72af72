//! Content types of archive entries, and the path facts the page logic reads:
//! the file name, whether it is hidden, and the type named by its extension.

use vstd::prelude::*;
use crate::text::{ascii_lowercase, chars_of, same_text, sub_chars, string_from_chars, to_ascii_lower};

verus! {

/// The kinds of content the media logic tells apart.
#[derive(Debug, Clone, Copy, PartialEq, Eq, Structural)]
pub enum ContentType {
    PNG,
    JPEG,
    WEBP,
    AVIF,
    JXL,
    GIF,
    XML,
    UNKNOWN,
}

/// Whether a content type is an image.
pub open spec fn is_image_type(t: ContentType) -> bool {
    match t {
        ContentType::PNG | ContentType::JPEG | ContentType::WEBP | ContentType::AVIF
        | ContentType::JXL | ContentType::GIF => true,
        _ => false,
    }
}

/// The MIME type of a content type.
pub open spec fn mime_of(t: ContentType) -> Seq<char> {
    match t {
        ContentType::PNG => "image/png"@,
        ContentType::JPEG => "image/jpeg"@,
        ContentType::WEBP => "image/webp"@,
        ContentType::AVIF => "image/avif"@,
        ContentType::JXL => "image/jxl"@,
        ContentType::GIF => "image/gif"@,
        ContentType::XML => "application/xml"@,
        ContentType::UNKNOWN => "application/octet-stream"@,
    }
}

/// The content type a lower-case file extension names.
pub open spec fn type_of_extension(ext: Seq<char>) -> ContentType {
    if ext == "png"@ {
        ContentType::PNG
    } else if ext == "jpg"@ || ext == "jpeg"@ {
        ContentType::JPEG
    } else if ext == "webp"@ {
        ContentType::WEBP
    } else if ext == "avif"@ {
        ContentType::AVIF
    } else if ext == "jxl"@ {
        ContentType::JXL
    } else if ext == "gif"@ {
        ContentType::GIF
    } else if ext == "xml"@ {
        ContentType::XML
    } else {
        ContentType::UNKNOWN
    }
}

/// Each image extension names its image type, without regard to ASCII case:
/// `png` PNG, `jpg` and `jpeg` JPEG, `webp` WEBP, `avif` AVIF, `jxl` JXL and
/// `gif` GIF, each an image whose MIME type is `image/` and the extension
/// (`image/jpeg` for both spellings of JPEG); `xml` names XML and anything
/// else UNKNOWN, neither an image.
pub proof fn lemma_image_extensions_name_image_types(ext: Seq<char>)
    ensures
        ({
            let low = ascii_lowercase(ext);
            let t = type_of_extension(low);
            &&& low == "png"@ ==> t == ContentType::PNG
            &&& low == "jpg"@ ==> t == ContentType::JPEG
            &&& low == "jpeg"@ ==> t == ContentType::JPEG
            &&& low == "webp"@ ==> t == ContentType::WEBP
            &&& low == "avif"@ ==> t == ContentType::AVIF
            &&& low == "jxl"@ ==> t == ContentType::JXL
            &&& low == "gif"@ ==> t == ContentType::GIF
            &&& low == "xml"@ ==> t == ContentType::XML
            &&& (low == "png"@ || low == "jpeg"@ || low == "webp"@ || low == "avif"@ || low
                == "jxl"@ || low == "gif"@) ==> is_image_type(t) && mime_of(t) == "image/"@ + low
            &&& low == "jpg"@ ==> is_image_type(t) && mime_of(t) == "image/jpeg"@
            &&& is_image_type(t) <==> (low == "png"@ || low == "jpg"@ || low == "jpeg"@ || low
                == "webp"@ || low == "avif"@ || low == "jxl"@ || low == "gif"@)
        }),
{
    reveal_strlit("png");
    reveal_strlit("jpg");
    reveal_strlit("jpeg");
    reveal_strlit("webp");
    reveal_strlit("avif");
    reveal_strlit("jxl");
    reveal_strlit("gif");
    reveal_strlit("xml");
    reveal_strlit("image/");
    reveal_strlit("image/png");
    reveal_strlit("image/jpeg");
    reveal_strlit("image/webp");
    reveal_strlit("image/avif");
    reveal_strlit("image/jxl");
    reveal_strlit("image/gif");
    assert("jpg"@[0] != "png"@[0]);
    assert("webp"@[0] != "jpeg"@[0]);
    assert("avif"@[0] != "jpeg"@[0] && "avif"@[0] != "webp"@[0]);
    assert("jxl"@[0] != "png"@[0] && "jxl"@[1] != "jpg"@[1]);
    assert("gif"@[0] != "png"@[0] && "gif"@[0] != "jpg"@[0] && "gif"@[0] != "jxl"@[0]);
    assert("xml"@[0] != "png"@[0] && "xml"@[0] != "jpg"@[0] && "xml"@[0] != "jxl"@[0] && "xml"@[0]
        != "gif"@[0]);
    let low = ascii_lowercase(ext);
    if low == "png"@ {
        assert(mime_of(ContentType::PNG) =~= "image/"@ + low);
    }
    if low == "jpeg"@ {
        assert(mime_of(ContentType::JPEG) =~= "image/"@ + low);
    }
    if low == "webp"@ {
        assert(mime_of(ContentType::WEBP) =~= "image/"@ + low);
    }
    if low == "avif"@ {
        assert(mime_of(ContentType::AVIF) =~= "image/"@ + low);
    }
    if low == "jxl"@ {
        assert(mime_of(ContentType::JXL) =~= "image/"@ + low);
    }
    if low == "gif"@ {
        assert(mime_of(ContentType::GIF) =~= "image/"@ + low);
    }
}

impl ContentType {
    /// Whether this is an image type.
    pub fn is_image(self) -> (r: bool)
        ensures
            r == is_image_type(self),
    {
        match self {
            ContentType::PNG | ContentType::JPEG | ContentType::WEBP | ContentType::AVIF
            | ContentType::JXL | ContentType::GIF => true,
            _ => false,
        }
    }

    /// The MIME type of this content type.
    pub fn mime_type(self) -> (r: &'static str)
        ensures
            r@ == mime_of(self),
    {
        match self {
            ContentType::PNG => "image/png",
            ContentType::JPEG => "image/jpeg",
            ContentType::WEBP => "image/webp",
            ContentType::AVIF => "image/avif",
            ContentType::JXL => "image/jxl",
            ContentType::GIF => "image/gif",
            ContentType::XML => "application/xml",
            ContentType::UNKNOWN => "application/octet-stream",
        }
    }

    /// The content type a file extension names, without regard to ASCII case.
    pub fn from_extension(ext: &str) -> (r: ContentType)
        ensures
            r == type_of_extension(ascii_lowercase(ext@)),
    {
        let v = chars_of(ext);
        let mut low: Vec<char> = Vec::new();
        let mut i: usize = 0;
        while i < v.len()
            invariant
                v@ == ext@,
                i <= v.len(),
                low@ == ascii_lowercase(ext@).take(i as int),
            decreases v.len() - i,
        {
            low.push(to_ascii_lower(v[i]));
            assert(ascii_lowercase(ext@).take(i + 1) =~= ascii_lowercase(ext@).take(i as int).push(
                ascii_lowercase(ext@)[i as int],
            ));
            i = i + 1;
        }
        assert(ascii_lowercase(ext@).take(v.len() as int) =~= ascii_lowercase(ext@));
        let s = string_from_chars(&low);
        let e = s.as_str();
        if same_text(e, "png") {
            ContentType::PNG
        } else if same_text(e, "jpg") || same_text(e, "jpeg") {
            ContentType::JPEG
        } else if same_text(e, "webp") {
            ContentType::WEBP
        } else if same_text(e, "avif") {
            ContentType::AVIF
        } else if same_text(e, "jxl") {
            ContentType::JXL
        } else if same_text(e, "gif") {
            ContentType::GIF
        } else if same_text(e, "xml") {
            ContentType::XML
        } else {
            ContentType::UNKNOWN
        }
    }
}

/// The last component of a `/`-separated path.
pub open spec fn file_name_of(path: Seq<char>) -> Seq<char>
    decreases path.len(),
{
    if path.len() == 0 || path.last() == '/' {
        Seq::empty()
    } else {
        file_name_of(path.drop_last()).push(path.last())
    }
}

/// The extension of a file name: the text after its last `.`, where that `.`
/// is not the first character.
pub open spec fn extension_of(name: Seq<char>) -> Option<Seq<char>>
    decreases name.len(),
{
    if name.len() == 0 {
        None
    } else if name.last() == '.' {
        if name.len() == 1 {
            None
        } else {
            Some(Seq::empty())
        }
    } else {
        match extension_of(name.drop_last()) {
            Some(e) => Some(e.push(name.last())),
            None => None,
        }
    }
}

/// Whether the file a path names is hidden: its name starts with `.`.
pub open spec fn is_hidden_path(path: Seq<char>) -> bool {
    file_name_of(path).len() > 0 && file_name_of(path)[0] == '.'
}

/// The content type a path names by its extension.
pub open spec fn naive_type_of(path: Seq<char>) -> ContentType {
    match extension_of(file_name_of(path)) {
        Some(e) => type_of_extension(ascii_lowercase(e)),
        None => ContentType::UNKNOWN,
    }
}

/// The position just after the last `/` of `v`, or 0.
fn name_start(v: &Vec<char>) -> (k: usize)
    ensures
        k <= v.len(),
        file_name_of(v@) == v@.subrange(k as int, v.len() as int),
{
    let mut k: usize = v.len();
    assert(file_name_of(v@.take(v.len() as int)) == file_name_of(v@)) by {
        assert(v@.take(v.len() as int) =~= v@);
    }
    assert(v@.subrange(v.len() as int, v.len() as int) =~= Seq::<char>::empty());
    while k > 0 && v[k - 1] != '/'
        invariant
            k <= v.len(),
            file_name_of(v@) == file_name_of(v@.take(k as int)) + v@.subrange(
                k as int,
                v.len() as int,
            ),
        decreases k,
    {
        let ghost pre = v@.take(k as int);
        assert(pre.drop_last() =~= v@.take(k - 1));
        assert(v@.subrange(k - 1, v.len() as int) =~= seq![v@[k - 1]] + v@.subrange(
            k as int,
            v.len() as int,
        ));
        assert(file_name_of(pre) == file_name_of(pre.drop_last()).push(pre.last()));
        assert(file_name_of(pre.drop_last()).push(pre.last()) + v@.subrange(k as int, v.len() as int)
            =~= file_name_of(v@.take(k - 1)) + v@.subrange(k - 1, v.len() as int));
        k = k - 1;
    }
    assert(file_name_of(v@.take(k as int)) =~= Seq::<char>::empty());
    assert(file_name_of(v@) =~= v@.subrange(k as int, v.len() as int));
    k
}

/// The last component of a `/`-separated path.
pub fn file_name(path: &str) -> (r: Vec<char>)
    ensures
        r@ == file_name_of(path@),
{
    let v = chars_of(path);
    let k = name_start(&v);
    sub_chars(&v, k, v.len())
}

/// Whether the file a path names is hidden.
pub fn is_hidden_file(path: &str) -> (r: bool)
    ensures
        r == is_hidden_path(path@),
{
    let n = file_name(path);
    n.len() > 0 && n[0] == '.'
}

/// The extension of a file name, as characters.
fn extension_chars(name: &Vec<char>) -> (r: Option<Vec<char>>)
    ensures
        match r {
            Some(e) => extension_of(name@) == Some(e@),
            None => extension_of(name@).is_none(),
        },
{
    let mut k: usize = name.len();
    assert(name@.take(name.len() as int) =~= name@);
    while k > 0 && name[k - 1] != '.'
        invariant
            k <= name.len(),
            extension_of(name@) == match extension_of(name@.take(k as int)) {
                Some(e) => Some(e + name@.subrange(k as int, name.len() as int)),
                None => None::<Seq<char>>,
            },
        decreases k,
    {
        let ghost pre = name@.take(k as int);
        assert(pre.drop_last() =~= name@.take(k - 1));
        assert(name@.subrange(k - 1, name.len() as int) =~= seq![name@[k - 1]] + name@.subrange(
            k as int,
            name.len() as int,
        ));
        proof {
            match extension_of(name@.take(k - 1)) {
                Some(e) => {
                    assert(e.push(pre.last()) + name@.subrange(k as int, name.len() as int) =~= e
                        + name@.subrange(k - 1, name.len() as int));
                },
                None => {},
            }
        }
        k = k - 1;
    }
    if k <= 1 {
        proof {
            if k == 1 {
                assert(name@.take(1).last() == '.');
            }
        }
        None
    } else {
        assert(extension_of(name@.take(k as int)) =~= Some(Seq::<char>::empty()));
        assert(Seq::<char>::empty() + name@.subrange(k as int, name.len() as int) =~= name@.subrange(
            k as int,
            name.len() as int,
        ));
        Some(sub_chars(name, k, name.len()))
    }
}

/// The content type a path names by the extension of its file name, without
/// regard to ASCII case; `UNKNOWN` where it has none.
pub fn naive_content_type(path: &str) -> (r: ContentType)
    ensures
        r == naive_type_of(path@),
{
    let n = file_name(path);
    match extension_chars(&n) {
        Some(e) => {
            let s = string_from_chars(&e);
            ContentType::from_extension(s.as_str())
        },
        None => ContentType::UNKNOWN,
    }
}

} // verus!
