//! The byte constants of the mbox grammar and of rendering, each as a spec
//! sequence beside an executable builder proved to produce it.

use vstd::prelude::*;

verus! {

/// The archive boundary marker `\nFrom `.
pub open spec fn nl_from_lit() -> Seq<u8> {
    seq![10u8, 70u8, 114u8, 111u8, 109u8, 32u8]
}

pub fn nl_from_pat() -> (v: Vec<u8>)
    ensures
        v@ == nl_from_lit(),
{
    let mut v: Vec<u8> = Vec::new();
    v.push(10);
    v.push(70);
    v.push(114);
    v.push(111);
    v.push(109);
    v.push(32);
    proof {
        assert(v@ =~= nl_from_lit());
    }
    v
}

/// The leading mailer-line token `From`.
pub open spec fn word_from_lit() -> Seq<u8> {
    seq![70u8, 114u8, 111u8, 109u8]
}

pub fn word_from_pat() -> (v: Vec<u8>)
    ensures
        v@ == word_from_lit(),
{
    let mut v: Vec<u8> = Vec::new();
    v.push(70);
    v.push(114);
    v.push(111);
    v.push(109);
    proof {
        assert(v@ =~= word_from_lit());
    }
    v
}

/// The blank line separating headers from the body.
pub open spec fn blank_sep_lit() -> Seq<u8> {
    seq![10u8, 10u8]
}

pub fn blank_sep_pat() -> (v: Vec<u8>)
    ensures
        v@ == blank_sep_lit(),
{
    let mut v: Vec<u8> = Vec::new();
    v.push(10);
    v.push(10);
    proof {
        assert(v@ =~= blank_sep_lit());
    }
    v
}

/// The standalone front-matter delimiter line.
pub open spec fn fm_delim_lit() -> Seq<u8> {
    seq![10u8, 45u8, 45u8, 45u8, 10u8]
}

pub fn fm_delim_pat() -> (v: Vec<u8>)
    ensures
        v@ == fm_delim_lit(),
{
    let mut v: Vec<u8> = Vec::new();
    v.push(10);
    v.push(45);
    v.push(45);
    v.push(45);
    v.push(10);
    proof {
        assert(v@ =~= fm_delim_lit());
    }
    v
}

/// The obfuscated address separator ` at `.
pub open spec fn at_sep_lit() -> Seq<u8> {
    seq![32u8, 97u8, 116u8, 32u8]
}

pub fn at_sep_pat() -> (v: Vec<u8>)
    ensures
        v@ == at_sep_lit(),
{
    let mut v: Vec<u8> = Vec::new();
    v.push(32);
    v.push(97);
    v.push(116);
    v.push(32);
    proof {
        assert(v@ =~= at_sep_lit());
    }
    v
}

/// The footer key/value separator `: `.
pub open spec fn colon_sp_lit() -> Seq<u8> {
    seq![58u8, 32u8]
}

pub fn colon_sp_pat() -> (v: Vec<u8>)
    ensures
        v@ == colon_sp_lit(),
{
    let mut v: Vec<u8> = Vec::new();
    v.push(58);
    v.push(32);
    proof {
        assert(v@ =~= colon_sp_lit());
    }
    v
}

/// The fixed UTC offset appended to mailer dates.
pub open spec fn utc_suffix_lit() -> Seq<u8> {
    seq![32u8, 43u8, 48u8, 48u8, 48u8, 48u8]
}

pub fn utc_suffix_pat() -> (v: Vec<u8>)
    ensures
        v@ == utc_suffix_lit(),
{
    let mut v: Vec<u8> = Vec::new();
    v.push(32);
    v.push(43);
    v.push(48);
    v.push(48);
    v.push(48);
    v.push(48);
    proof {
        assert(v@ =~= utc_suffix_lit());
    }
    v
}

/// The lowercased `From` header key.
pub open spec fn key_from_lit() -> Seq<u8> {
    seq![102u8, 114u8, 111u8, 109u8]
}

pub fn key_from_pat() -> (v: Vec<u8>)
    ensures
        v@ == key_from_lit(),
{
    let mut v: Vec<u8> = Vec::new();
    v.push(102);
    v.push(114);
    v.push(111);
    v.push(109);
    proof {
        assert(v@ =~= key_from_lit());
    }
    v
}

/// The lowercased `Date` header key.
pub open spec fn key_date_lit() -> Seq<u8> {
    seq![100u8, 97u8, 116u8, 101u8]
}

pub fn key_date_pat() -> (v: Vec<u8>)
    ensures
        v@ == key_date_lit(),
{
    let mut v: Vec<u8> = Vec::new();
    v.push(100);
    v.push(97);
    v.push(116);
    v.push(101);
    proof {
        assert(v@ =~= key_date_lit());
    }
    v
}

/// The lowercased `Author` header key.
pub open spec fn key_author_lit() -> Seq<u8> {
    seq![97u8, 117u8, 116u8, 104u8, 111u8, 114u8]
}

pub fn key_author_pat() -> (v: Vec<u8>)
    ensures
        v@ == key_author_lit(),
{
    let mut v: Vec<u8> = Vec::new();
    v.push(97);
    v.push(117);
    v.push(116);
    v.push(104);
    v.push(111);
    v.push(114);
    proof {
        assert(v@ =~= key_author_lit());
    }
    v
}

/// The lowercased `Subject` header key.
pub open spec fn key_subject_lit() -> Seq<u8> {
    seq![115u8, 117u8, 98u8, 106u8, 101u8, 99u8, 116u8]
}

pub fn key_subject_pat() -> (v: Vec<u8>)
    ensures
        v@ == key_subject_lit(),
{
    let mut v: Vec<u8> = Vec::new();
    v.push(115);
    v.push(117);
    v.push(98);
    v.push(106);
    v.push(101);
    v.push(99);
    v.push(116);
    proof {
        assert(v@ =~= key_subject_lit());
    }
    v
}

/// The patch subject opener `[PATCH`.
pub open spec fn patch_open_lit() -> Seq<u8> {
    seq![91u8, 80u8, 65u8, 84u8, 67u8, 72u8]
}

pub fn patch_open_pat() -> (v: Vec<u8>)
    ensures
        v@ == patch_open_lit(),
{
    let mut v: Vec<u8> = Vec::new();
    v.push(91);
    v.push(80);
    v.push(65);
    v.push(84);
    v.push(67);
    v.push(72);
    proof {
        assert(v@ =~= patch_open_lit());
    }
    v
}

/// The version prefix inside a patch bracket.
pub open spec fn sp_v_lit() -> Seq<u8> {
    seq![32u8, 118u8]
}

pub fn sp_v_pat() -> (v: Vec<u8>)
    ensures
        v@ == sp_v_lit(),
{
    let mut v: Vec<u8> = Vec::new();
    v.push(32);
    v.push(118);
    proof {
        assert(v@ =~= sp_v_lit());
    }
    v
}

/// The escape that turns the yellow background on.
pub open spec fn yellow_on_lit() -> Seq<u8> {
    seq![27u8, 91u8, 52u8, 51u8, 109u8]
}

pub fn yellow_on_pat() -> (v: Vec<u8>)
    ensures
        v@ == yellow_on_lit(),
{
    let mut v: Vec<u8> = Vec::new();
    v.push(27);
    v.push(91);
    v.push(52);
    v.push(51);
    v.push(109);
    proof {
        assert(v@ =~= yellow_on_lit());
    }
    v
}

/// The escape that restores the default background.
pub open spec fn yellow_off_lit() -> Seq<u8> {
    seq![27u8, 91u8, 52u8, 57u8, 109u8]
}

pub fn yellow_off_pat() -> (v: Vec<u8>)
    ensures
        v@ == yellow_off_lit(),
{
    let mut v: Vec<u8> = Vec::new();
    v.push(27);
    v.push(91);
    v.push(52);
    v.push(57);
    v.push(109);
    proof {
        assert(v@ =~= yellow_off_lit());
    }
    v
}

/// The escape that turns the green foreground on.
pub open spec fn green_on_lit() -> Seq<u8> {
    seq![27u8, 91u8, 51u8, 50u8, 109u8]
}

pub fn green_on_pat() -> (v: Vec<u8>)
    ensures
        v@ == green_on_lit(),
{
    let mut v: Vec<u8> = Vec::new();
    v.push(27);
    v.push(91);
    v.push(51);
    v.push(50);
    v.push(109);
    proof {
        assert(v@ =~= green_on_lit());
    }
    v
}

/// The escape that restores the default foreground.
pub open spec fn green_off_lit() -> Seq<u8> {
    seq![27u8, 91u8, 51u8, 57u8, 109u8]
}

pub fn green_off_pat() -> (v: Vec<u8>)
    ensures
        v@ == green_off_lit(),
{
    let mut v: Vec<u8> = Vec::new();
    v.push(27);
    v.push(91);
    v.push(51);
    v.push(57);
    v.push(109);
    proof {
        assert(v@ =~= green_off_lit());
    }
    v
}

/// The display key of a `Date` header.
pub open spec fn disp_date_lit() -> Seq<u8> {
    seq![68u8, 97u8, 116u8, 101u8]
}

pub fn disp_date_pat() -> (v: Vec<u8>)
    ensures
        v@ == disp_date_lit(),
{
    let mut v: Vec<u8> = Vec::new();
    v.push(68);
    v.push(97);
    v.push(116);
    v.push(101);
    proof {
        assert(v@ =~= disp_date_lit());
    }
    v
}

/// The display key of an `Author` header.
pub open spec fn disp_author_lit() -> Seq<u8> {
    seq![65u8, 117u8, 116u8, 104u8, 111u8, 114u8]
}

pub fn disp_author_pat() -> (v: Vec<u8>)
    ensures
        v@ == disp_author_lit(),
{
    let mut v: Vec<u8> = Vec::new();
    v.push(65);
    v.push(117);
    v.push(116);
    v.push(104);
    v.push(111);
    v.push(114);
    proof {
        assert(v@ =~= disp_author_lit());
    }
    v
}

/// The display key of a `Subject` header.
pub open spec fn disp_subject_lit() -> Seq<u8> {
    seq![83u8, 117u8, 98u8, 106u8, 101u8, 99u8, 116u8]
}

pub fn disp_subject_pat() -> (v: Vec<u8>)
    ensures
        v@ == disp_subject_lit(),
{
    let mut v: Vec<u8> = Vec::new();
    v.push(83);
    v.push(117);
    v.push(98);
    v.push(106);
    v.push(101);
    v.push(99);
    v.push(116);
    proof {
        assert(v@ =~= disp_subject_lit());
    }
    v
}
/// The closing delimiter line of a rendered front-matter block.
pub open spec fn dashes_nl_lit() -> Seq<u8> {
    seq![45u8, 45u8, 45u8, 10u8]
}

pub fn dashes_nl_pat() -> (v: Vec<u8>)
    ensures
        v@ == dashes_nl_lit(),
{
    let mut v: Vec<u8> = Vec::new();
    v.push(45);
    v.push(45);
    v.push(45);
    v.push(10);
    proof {
        assert(v@ =~= dashes_nl_lit());
    }
    v
}
} // verus!
