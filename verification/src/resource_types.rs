//! The Aurora resource types: numeric type ids and their file extensions.

use vstd::prelude::*;
use crate::text::{ascii_lowercase, chars_of, lowercase_chars, same_chars};

verus! {

broadcast use vstd::string::group_string_axioms;

/// The extension registered for the resource type `type_id`, if any.
pub open spec fn registered_extension(type_id: u16) -> Option<Seq<char>> {
    match type_id {
        1u16 => Some("bmp"@),
        3u16 => Some("tga"@),
        4u16 => Some("wav"@),
        6u16 => Some("plt"@),
        7u16 => Some("ini"@),
        8u16 => Some("bmu"@),
        9u16 => Some("mpg"@),
        10u16 => Some("txt"@),
        2000u16 => Some("plh"@),
        2001u16 => Some("tex"@),
        2002u16 => Some("mdl"@),
        2003u16 => Some("thg"@),
        2005u16 => Some("fnt"@),
        2007u16 => Some("lua"@),
        2008u16 => Some("slt"@),
        2009u16 => Some("nss"@),
        2010u16 => Some("ncs"@),
        2011u16 => Some("mod"@),
        2012u16 => Some("are"@),
        2013u16 => Some("set"@),
        2014u16 => Some("ifo"@),
        2015u16 => Some("bic"@),
        2016u16 => Some("wok"@),
        2017u16 => Some("2da"@),
        2018u16 => Some("tlk"@),
        2022u16 => Some("txi"@),
        2023u16 => Some("git"@),
        2024u16 => Some("bti"@),
        2025u16 => Some("uti"@),
        2026u16 => Some("btc"@),
        2027u16 => Some("utc"@),
        2029u16 => Some("dlg"@),
        2030u16 => Some("itp"@),
        2031u16 => Some("btt"@),
        2032u16 => Some("utt"@),
        2033u16 => Some("dds"@),
        2034u16 => Some("bts"@),
        2035u16 => Some("uts"@),
        2036u16 => Some("ltr"@),
        2037u16 => Some("gff"@),
        2038u16 => Some("fac"@),
        2039u16 => Some("bte"@),
        2040u16 => Some("ute"@),
        2041u16 => Some("btd"@),
        2042u16 => Some("utd"@),
        2043u16 => Some("btp"@),
        2044u16 => Some("utp"@),
        2045u16 => Some("dft"@),
        2046u16 => Some("gic"@),
        2047u16 => Some("gui"@),
        2048u16 => Some("css"@),
        2049u16 => Some("ccs"@),
        2050u16 => Some("btm"@),
        2051u16 => Some("utm"@),
        2052u16 => Some("dwk"@),
        2053u16 => Some("pwk"@),
        2054u16 => Some("btg"@),
        2055u16 => Some("utg"@),
        2056u16 => Some("jrl"@),
        2057u16 => Some("sav"@),
        2058u16 => Some("utw"@),
        2059u16 => Some("4pc"@),
        2060u16 => Some("ssf"@),
        2061u16 => Some("hak"@),
        2062u16 => Some("nwm"@),
        2063u16 => Some("bik"@),
        2064u16 => Some("ndb"@),
        2065u16 => Some("ptm"@),
        2066u16 => Some("ptt"@),
        2067u16 => Some("bak"@),
        2068u16 => Some("dat"@),
        2069u16 => Some("shd"@),
        2070u16 => Some("xbc"@),
        2071u16 => Some("wbm"@),
        2072u16 => Some("mtr"@),
        2073u16 => Some("ktx"@),
        2074u16 => Some("ttf"@),
        2075u16 => Some("sql"@),
        2076u16 => Some("tml"@),
        2077u16 => Some("sq3"@),
        2078u16 => Some("lod"@),
        2079u16 => Some("gif"@),
        2080u16 => Some("png"@),
        2081u16 => Some("jpg"@),
        2082u16 => Some("caf"@),
        2083u16 => Some("jui"@),
        9996u16 => Some("ids"@),
        9997u16 => Some("erf"@),
        9998u16 => Some("bif"@),
        9999u16 => Some("key"@),
        _ => None,
    }
}

/// The extension under which an unregistered resource type is shown.
pub open spec fn unregistered_extension() -> Seq<char> {
    "bin"@
}

/// The extension of files holding resources of type `type_id`.
pub open spec fn extension_name(type_id: u16) -> Seq<char> {
    match registered_extension(type_id) {
        Some(e) => e,
        None => unregistered_extension(),
    }
}

/// `type_id` is registered under the extension `ext`, compared without ASCII case.
pub open spec fn names_type(ext: Seq<char>, type_id: u16) -> bool {
    registered_extension(type_id) matches Some(e) && e == ascii_lowercase(ext)
}

/// The resource type of files with extension `ext`: the smallest registered
/// type id whose extension equals `ext` without regard to ASCII case.
pub open spec fn type_of_extension(ext: Seq<char>) -> Option<u16> {
    if exists|t: u16| names_type(ext, t) {
        Some(choose|t: u16| names_type(ext, t) && forall|u: u16| u < t ==> !names_type(ext, u))
    } else {
        None
    }
}

/// `c` is an ASCII lower-case letter or digit.
pub open spec fn is_plain_char(c: char) -> bool {
    ('a' <= c && c <= 'z') || ('0' <= c && c <= '9')
}

/// Every extension is a non-empty run of ASCII lower-case letters and digits.
pub proof fn lemma_extension_is_plain(type_id: u16)
    ensures
        extension_name(type_id).len() > 0,
        forall|i: int| 0 <= i < extension_name(type_id).len() ==> is_plain_char(#[trigger] extension_name(type_id)[i]),
{
    match type_id {
        1u16 => {
            reveal_strlit("bmp");
        },
        3u16 => {
            reveal_strlit("tga");
        },
        4u16 => {
            reveal_strlit("wav");
        },
        6u16 => {
            reveal_strlit("plt");
        },
        7u16 => {
            reveal_strlit("ini");
        },
        8u16 => {
            reveal_strlit("bmu");
        },
        9u16 => {
            reveal_strlit("mpg");
        },
        10u16 => {
            reveal_strlit("txt");
        },
        2000u16 => {
            reveal_strlit("plh");
        },
        2001u16 => {
            reveal_strlit("tex");
        },
        2002u16 => {
            reveal_strlit("mdl");
        },
        2003u16 => {
            reveal_strlit("thg");
        },
        2005u16 => {
            reveal_strlit("fnt");
        },
        2007u16 => {
            reveal_strlit("lua");
        },
        2008u16 => {
            reveal_strlit("slt");
        },
        2009u16 => {
            reveal_strlit("nss");
        },
        2010u16 => {
            reveal_strlit("ncs");
        },
        2011u16 => {
            reveal_strlit("mod");
        },
        2012u16 => {
            reveal_strlit("are");
        },
        2013u16 => {
            reveal_strlit("set");
        },
        2014u16 => {
            reveal_strlit("ifo");
        },
        2015u16 => {
            reveal_strlit("bic");
        },
        2016u16 => {
            reveal_strlit("wok");
        },
        2017u16 => {
            reveal_strlit("2da");
        },
        2018u16 => {
            reveal_strlit("tlk");
        },
        2022u16 => {
            reveal_strlit("txi");
        },
        2023u16 => {
            reveal_strlit("git");
        },
        2024u16 => {
            reveal_strlit("bti");
        },
        2025u16 => {
            reveal_strlit("uti");
        },
        2026u16 => {
            reveal_strlit("btc");
        },
        2027u16 => {
            reveal_strlit("utc");
        },
        2029u16 => {
            reveal_strlit("dlg");
        },
        2030u16 => {
            reveal_strlit("itp");
        },
        2031u16 => {
            reveal_strlit("btt");
        },
        2032u16 => {
            reveal_strlit("utt");
        },
        2033u16 => {
            reveal_strlit("dds");
        },
        2034u16 => {
            reveal_strlit("bts");
        },
        2035u16 => {
            reveal_strlit("uts");
        },
        2036u16 => {
            reveal_strlit("ltr");
        },
        2037u16 => {
            reveal_strlit("gff");
        },
        2038u16 => {
            reveal_strlit("fac");
        },
        2039u16 => {
            reveal_strlit("bte");
        },
        2040u16 => {
            reveal_strlit("ute");
        },
        2041u16 => {
            reveal_strlit("btd");
        },
        2042u16 => {
            reveal_strlit("utd");
        },
        2043u16 => {
            reveal_strlit("btp");
        },
        2044u16 => {
            reveal_strlit("utp");
        },
        2045u16 => {
            reveal_strlit("dft");
        },
        2046u16 => {
            reveal_strlit("gic");
        },
        2047u16 => {
            reveal_strlit("gui");
        },
        2048u16 => {
            reveal_strlit("css");
        },
        2049u16 => {
            reveal_strlit("ccs");
        },
        2050u16 => {
            reveal_strlit("btm");
        },
        2051u16 => {
            reveal_strlit("utm");
        },
        2052u16 => {
            reveal_strlit("dwk");
        },
        2053u16 => {
            reveal_strlit("pwk");
        },
        2054u16 => {
            reveal_strlit("btg");
        },
        2055u16 => {
            reveal_strlit("utg");
        },
        2056u16 => {
            reveal_strlit("jrl");
        },
        2057u16 => {
            reveal_strlit("sav");
        },
        2058u16 => {
            reveal_strlit("utw");
        },
        2059u16 => {
            reveal_strlit("4pc");
        },
        2060u16 => {
            reveal_strlit("ssf");
        },
        2061u16 => {
            reveal_strlit("hak");
        },
        2062u16 => {
            reveal_strlit("nwm");
        },
        2063u16 => {
            reveal_strlit("bik");
        },
        2064u16 => {
            reveal_strlit("ndb");
        },
        2065u16 => {
            reveal_strlit("ptm");
        },
        2066u16 => {
            reveal_strlit("ptt");
        },
        2067u16 => {
            reveal_strlit("bak");
        },
        2068u16 => {
            reveal_strlit("dat");
        },
        2069u16 => {
            reveal_strlit("shd");
        },
        2070u16 => {
            reveal_strlit("xbc");
        },
        2071u16 => {
            reveal_strlit("wbm");
        },
        2072u16 => {
            reveal_strlit("mtr");
        },
        2073u16 => {
            reveal_strlit("ktx");
        },
        2074u16 => {
            reveal_strlit("ttf");
        },
        2075u16 => {
            reveal_strlit("sql");
        },
        2076u16 => {
            reveal_strlit("tml");
        },
        2077u16 => {
            reveal_strlit("sq3");
        },
        2078u16 => {
            reveal_strlit("lod");
        },
        2079u16 => {
            reveal_strlit("gif");
        },
        2080u16 => {
            reveal_strlit("png");
        },
        2081u16 => {
            reveal_strlit("jpg");
        },
        2082u16 => {
            reveal_strlit("caf");
        },
        2083u16 => {
            reveal_strlit("jui");
        },
        9996u16 => {
            reveal_strlit("ids");
        },
        9997u16 => {
            reveal_strlit("erf");
        },
        9998u16 => {
            reveal_strlit("bif");
        },
        9999u16 => {
            reveal_strlit("key");
        },
        _ => {
            reveal_strlit("bin");
        },
    }
}

/// The registered extension of `type_id`, if any.
pub fn registered_extension_for(type_id: u16) -> (r: Option<&'static str>)
    ensures
        r matches Some(s) ==> registered_extension(type_id) == Some(s@),
        r is None ==> registered_extension(type_id) is None,
{
    match type_id {
        1u16 => Some("bmp"),
        3u16 => Some("tga"),
        4u16 => Some("wav"),
        6u16 => Some("plt"),
        7u16 => Some("ini"),
        8u16 => Some("bmu"),
        9u16 => Some("mpg"),
        10u16 => Some("txt"),
        2000u16 => Some("plh"),
        2001u16 => Some("tex"),
        2002u16 => Some("mdl"),
        2003u16 => Some("thg"),
        2005u16 => Some("fnt"),
        2007u16 => Some("lua"),
        2008u16 => Some("slt"),
        2009u16 => Some("nss"),
        2010u16 => Some("ncs"),
        2011u16 => Some("mod"),
        2012u16 => Some("are"),
        2013u16 => Some("set"),
        2014u16 => Some("ifo"),
        2015u16 => Some("bic"),
        2016u16 => Some("wok"),
        2017u16 => Some("2da"),
        2018u16 => Some("tlk"),
        2022u16 => Some("txi"),
        2023u16 => Some("git"),
        2024u16 => Some("bti"),
        2025u16 => Some("uti"),
        2026u16 => Some("btc"),
        2027u16 => Some("utc"),
        2029u16 => Some("dlg"),
        2030u16 => Some("itp"),
        2031u16 => Some("btt"),
        2032u16 => Some("utt"),
        2033u16 => Some("dds"),
        2034u16 => Some("bts"),
        2035u16 => Some("uts"),
        2036u16 => Some("ltr"),
        2037u16 => Some("gff"),
        2038u16 => Some("fac"),
        2039u16 => Some("bte"),
        2040u16 => Some("ute"),
        2041u16 => Some("btd"),
        2042u16 => Some("utd"),
        2043u16 => Some("btp"),
        2044u16 => Some("utp"),
        2045u16 => Some("dft"),
        2046u16 => Some("gic"),
        2047u16 => Some("gui"),
        2048u16 => Some("css"),
        2049u16 => Some("ccs"),
        2050u16 => Some("btm"),
        2051u16 => Some("utm"),
        2052u16 => Some("dwk"),
        2053u16 => Some("pwk"),
        2054u16 => Some("btg"),
        2055u16 => Some("utg"),
        2056u16 => Some("jrl"),
        2057u16 => Some("sav"),
        2058u16 => Some("utw"),
        2059u16 => Some("4pc"),
        2060u16 => Some("ssf"),
        2061u16 => Some("hak"),
        2062u16 => Some("nwm"),
        2063u16 => Some("bik"),
        2064u16 => Some("ndb"),
        2065u16 => Some("ptm"),
        2066u16 => Some("ptt"),
        2067u16 => Some("bak"),
        2068u16 => Some("dat"),
        2069u16 => Some("shd"),
        2070u16 => Some("xbc"),
        2071u16 => Some("wbm"),
        2072u16 => Some("mtr"),
        2073u16 => Some("ktx"),
        2074u16 => Some("ttf"),
        2075u16 => Some("sql"),
        2076u16 => Some("tml"),
        2077u16 => Some("sq3"),
        2078u16 => Some("lod"),
        2079u16 => Some("gif"),
        2080u16 => Some("png"),
        2081u16 => Some("jpg"),
        2082u16 => Some("caf"),
        2083u16 => Some("jui"),
        9996u16 => Some("ids"),
        9997u16 => Some("erf"),
        9998u16 => Some("bif"),
        9999u16 => Some("key"),
        _ => None,
    }
}

/// The extension of files holding resources of type `type_id`.
pub fn extension_for(type_id: u16) -> (r: &'static str)
    ensures
        r@ == extension_name(type_id),
{
    match registered_extension_for(type_id) {
        Some(e) => e,
        None => "bin",
    }
}

/// The resource type of files with extension `ext` (ASCII case ignored).
pub fn type_for(ext: &str) -> (r: Option<u16>)
    ensures
        r == type_of_extension(ext@),
{
    let lowered = lowercase_chars(chars_of(ext).as_slice());
    let mut t: u32 = 0;
    while t <= 0xffff
        invariant
            t <= 0x10000,
            lowered@ == ascii_lowercase(ext@),
            forall|u: u16| u < t ==> !names_type(ext@, u),
        decreases 0x10000 - t,
    {
        let id = t as u16;
        if let Some(e) = registered_extension_for(id) {
            let chars = chars_of(e);
            if same_chars(chars.as_slice(), lowered.as_slice()) {
                assert(names_type(ext@, id));
                let ghost pick = choose|x: u16| names_type(ext@, x) && forall|u: u16| u < x ==> !names_type(ext@, u);
                assert(names_type(ext@, id) && forall|u: u16| u < id ==> !names_type(ext@, u));
                assert(pick == id) by {
                    if pick < id { } else if id < pick { }
                }
                return Some(id);
            }
        }
        t = t + 1;
    }
    proof {
        assert forall|u: u16| !names_type(ext@, u) by {
            assert(u < t);
        }
    }
    None
}

} // verus!
