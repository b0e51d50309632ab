// Groups a character can belong to: the works they appear in, and stages.

use vstd::prelude::*;
use crate::text::{lower_of, lowercase, same_text};

verus! {

/// A group a character belongs to: a work of the series, or a stage.
#[allow(non_camel_case_types)]
#[derive(Clone, Copy, Debug, PartialEq, Eq, Structural, Hash)]
pub enum Tags {
    book,
    HRtP,
    SoEW,
    PoDD,
    LLS,
    MS,
    EoSD,
    PCB,
    IaMP,
    IN,
    PoFV,
    StB,
    MoF,
    SWR,
    SA,
    UFO,
    soku,
    DS,
    GFW,
    TD,
    HM,
    DDC,
    ISC,
    ULiL,
    LoLK,
    AoCF,
    HSiFS,
    VD,
    WBaWC,
    ibun,
    UM,
    BM100,
    UDoALG,
    st1,
    st2,
    st3,
    st4,
    st5,
    st6,
    ex,
}

/// The display name of a group.
pub open spec fn tag_name(t: Tags) -> Seq<char> {
    match t {
        Tags::book => "Books and CDs"@,
        Tags::HRtP => "The Highly Responsive to Prayers"@,
        Tags::SoEW => "The Story of Eastern Wonderland"@,
        Tags::PoDD => "Phantasmagoria of Dim.Dream"@,
        Tags::LLS => "Lotus Land Story"@,
        Tags::MS => "Mystic Square"@,
        Tags::EoSD => "Embodiment of Scarlet Devil"@,
        Tags::PCB => "Perfect Cherry Blossom"@,
        Tags::IaMP => "Immaterial and Missing Power"@,
        Tags::IN => "Imperishable Night"@,
        Tags::PoFV => "Phantasmagoria of Flower View"@,
        Tags::StB => "Shoot the Bullet"@,
        Tags::MoF => "Mountain of Faith"@,
        Tags::SWR => "Scarlet Weather Rhapsody"@,
        Tags::SA => "Subterranean Animism"@,
        Tags::UFO => "Undefined Fantastic Object"@,
        Tags::soku => "Touhou Hisoutensoku"@,
        Tags::DS => "Double Spoiler"@,
        Tags::GFW => "Great Fairy Wars"@,
        Tags::TD => "Ten Desires"@,
        Tags::HM => "Hopeless Masquerade"@,
        Tags::DDC => "Double Dealing Character"@,
        Tags::ISC => "Impossible Spell Card"@,
        Tags::ULiL => "Urban Legend in Limbo"@,
        Tags::LoLK => "Legacy of Lunatic Kingdom"@,
        Tags::AoCF => "Antinomy of Common Flowers"@,
        Tags::HSiFS => "Hidden Star in Four Seasons"@,
        Tags::VD => "Violet Detector"@,
        Tags::WBaWC => "Wily Beast and Weakest Creature"@,
        Tags::ibun => "Touhou Gouyoku Ibun"@,
        Tags::UM => "Unconnected Marketeers"@,
        Tags::BM100 => "100th Black Market"@,
        Tags::UDoALG => "Unfinished Dream of All Living Ghost"@,
        Tags::st1 => "Stage 1"@,
        Tags::st2 => "Stage 2"@,
        Tags::st3 => "Stage 3"@,
        Tags::st4 => "Stage 4"@,
        Tags::st5 => "Stage 5/Penultimate"@,
        Tags::st6 => "Stage 6/Final"@,
        Tags::ex => "Stage EX/Phantasm"@,
    }
}

/// The number and title of a work of the series; empty for books and stages.
pub open spec fn tag_exname(t: Tags) -> Seq<char> {
    match t {
        Tags::book => ""@,
        Tags::HRtP => "01 - Reiiden"@,
        Tags::SoEW => "02 - Fuumaroku"@,
        Tags::PoDD => "03 - Yumejikuu"@,
        Tags::LLS => "04 - Gensoukyou"@,
        Tags::MS => "05 - Kaikidan"@,
        Tags::EoSD => "06 - Koumakan"@,
        Tags::PCB => "07 - Youyoumu"@,
        Tags::IaMP => "07.5 - Suimusou"@,
        Tags::IN => "08 - Eiyashou"@,
        Tags::PoFV => "09 - Kaeidzuka"@,
        Tags::StB => "09.5 - Bunkachou"@,
        Tags::MoF => "10 - Fuujinroku"@,
        Tags::SWR => "10.5 - Hisouten"@,
        Tags::SA => "11 - Chireiden"@,
        Tags::UFO => "12 - Seirensen"@,
        Tags::soku => "12.3 - Hisoutensoku"@,
        Tags::DS => "12.5 - Bunkachou"@,
        Tags::GFW => "12.8 - Daisensou"@,
        Tags::TD => "13 - Shinreibyou"@,
        Tags::HM => "13.5 - Shinkirou"@,
        Tags::DDC => "14 - Kishinjou"@,
        Tags::ISC => "14.3 - Amanojaku"@,
        Tags::ULiL => "14.5 - Shinpiroku"@,
        Tags::LoLK => "15 - Kanjuden"@,
        Tags::AoCF => "15.5 - Hyouibana"@,
        Tags::HSiFS => "16 - Tenkuushou"@,
        Tags::VD => "16.5 - Hifuu Nightmare Diary"@,
        Tags::WBaWC => "17 - Kikeijuu"@,
        Tags::ibun => "17.5 - Gouyoku Ibun"@,
        Tags::UM => "18 - Kouryuudou"@,
        Tags::BM100 => "18.5 - Bulletphilia-tachi no Yami-Ichiba"@,
        Tags::UDoALG => "19 - Unfinished Dream of All Living Ghost"@,
        Tags::st1 => ""@,
        Tags::st2 => ""@,
        Tags::st3 => ""@,
        Tags::st4 => ""@,
        Tags::st5 => ""@,
        Tags::st6 => ""@,
        Tags::ex => ""@,
    }
}

/// Stage groups form one family of tags, works the other.
pub open spec fn is_stage(t: Tags) -> bool {
    t is st1 || t is st2 || t is st3 || t is st4 || t is st5 || t is st6 || t is ex
}

/// The group that a lower-case keyword names: the short name of a group, or
/// `th` and the number of a work.
pub open spec fn keyword_tag(k: Seq<char>) -> Option<Tags> {
    if k == "book"@ {
        Some(Tags::book)
    } else if k == "hrtp"@ || k == "th01"@ {
        Some(Tags::HRtP)
    } else if k == "soew"@ || k == "th02"@ {
        Some(Tags::SoEW)
    } else if k == "podd"@ || k == "th03"@ {
        Some(Tags::PoDD)
    } else if k == "lls"@ || k == "th04"@ {
        Some(Tags::LLS)
    } else if k == "ms"@ || k == "th05"@ {
        Some(Tags::MS)
    } else if k == "eosd"@ || k == "th06"@ {
        Some(Tags::EoSD)
    } else if k == "pcb"@ || k == "th07"@ {
        Some(Tags::PCB)
    } else if k == "iamp"@ || k == "th07.5"@ {
        Some(Tags::IaMP)
    } else if k == "in"@ || k == "th08"@ {
        Some(Tags::IN)
    } else if k == "pofv"@ || k == "th09"@ {
        Some(Tags::PoFV)
    } else if k == "stb"@ || k == "th09.5"@ {
        Some(Tags::StB)
    } else if k == "mof"@ || k == "th10"@ {
        Some(Tags::MoF)
    } else if k == "swr"@ || k == "th10.5"@ {
        Some(Tags::SWR)
    } else if k == "sa"@ || k == "th11"@ {
        Some(Tags::SA)
    } else if k == "ufo"@ || k == "th12"@ {
        Some(Tags::UFO)
    } else if k == "soku"@ || k == "th12.3"@ {
        Some(Tags::soku)
    } else if k == "ds"@ || k == "th12.5"@ {
        Some(Tags::DS)
    } else if k == "gfw"@ || k == "th12.8"@ {
        Some(Tags::GFW)
    } else if k == "td"@ || k == "th13"@ {
        Some(Tags::TD)
    } else if k == "hm"@ || k == "th13.5"@ {
        Some(Tags::HM)
    } else if k == "ddc"@ || k == "th14"@ {
        Some(Tags::DDC)
    } else if k == "isc"@ || k == "th14.3"@ {
        Some(Tags::ISC)
    } else if k == "ulil"@ || k == "th14.5"@ {
        Some(Tags::ULiL)
    } else if k == "lolk"@ || k == "th15"@ {
        Some(Tags::LoLK)
    } else if k == "aocf"@ || k == "th15.5"@ {
        Some(Tags::AoCF)
    } else if k == "hsifs"@ || k == "th16"@ {
        Some(Tags::HSiFS)
    } else if k == "vd"@ || k == "th16.5"@ {
        Some(Tags::VD)
    } else if k == "wbawc"@ || k == "th17"@ {
        Some(Tags::WBaWC)
    } else if k == "ibun"@ || k == "th17.5"@ {
        Some(Tags::ibun)
    } else if k == "um"@ || k == "th18"@ {
        Some(Tags::UM)
    } else if k == "bm100"@ || k == "th18.5"@ {
        Some(Tags::BM100)
    } else if k == "udoalg"@ || k == "th19"@ {
        Some(Tags::UDoALG)
    } else if k == "st1"@ {
        Some(Tags::st1)
    } else if k == "st2"@ {
        Some(Tags::st2)
    } else if k == "st3"@ {
        Some(Tags::st3)
    } else if k == "st4"@ {
        Some(Tags::st4)
    } else if k == "st5"@ {
        Some(Tags::st5)
    } else if k == "st6"@ {
        Some(Tags::st6)
    } else if k == "ex"@ {
        Some(Tags::ex)
    } else {
        None
    }
}

impl Tags {
    /// The display name of the group.
    pub fn name(&self) -> (r: &'static str)
        ensures
            r@ == tag_name(*self),
    {
        match *self {
            Tags::book => "Books and CDs",
            Tags::HRtP => "The Highly Responsive to Prayers",
            Tags::SoEW => "The Story of Eastern Wonderland",
            Tags::PoDD => "Phantasmagoria of Dim.Dream",
            Tags::LLS => "Lotus Land Story",
            Tags::MS => "Mystic Square",
            Tags::EoSD => "Embodiment of Scarlet Devil",
            Tags::PCB => "Perfect Cherry Blossom",
            Tags::IaMP => "Immaterial and Missing Power",
            Tags::IN => "Imperishable Night",
            Tags::PoFV => "Phantasmagoria of Flower View",
            Tags::StB => "Shoot the Bullet",
            Tags::MoF => "Mountain of Faith",
            Tags::SWR => "Scarlet Weather Rhapsody",
            Tags::SA => "Subterranean Animism",
            Tags::UFO => "Undefined Fantastic Object",
            Tags::soku => "Touhou Hisoutensoku",
            Tags::DS => "Double Spoiler",
            Tags::GFW => "Great Fairy Wars",
            Tags::TD => "Ten Desires",
            Tags::HM => "Hopeless Masquerade",
            Tags::DDC => "Double Dealing Character",
            Tags::ISC => "Impossible Spell Card",
            Tags::ULiL => "Urban Legend in Limbo",
            Tags::LoLK => "Legacy of Lunatic Kingdom",
            Tags::AoCF => "Antinomy of Common Flowers",
            Tags::HSiFS => "Hidden Star in Four Seasons",
            Tags::VD => "Violet Detector",
            Tags::WBaWC => "Wily Beast and Weakest Creature",
            Tags::ibun => "Touhou Gouyoku Ibun",
            Tags::UM => "Unconnected Marketeers",
            Tags::BM100 => "100th Black Market",
            Tags::UDoALG => "Unfinished Dream of All Living Ghost",
            Tags::st1 => "Stage 1",
            Tags::st2 => "Stage 2",
            Tags::st3 => "Stage 3",
            Tags::st4 => "Stage 4",
            Tags::st5 => "Stage 5/Penultimate",
            Tags::st6 => "Stage 6/Final",
            Tags::ex => "Stage EX/Phantasm",
        }
    }

    /// The number and title of the work; empty for books and stages.
    pub fn exname(&self) -> (r: &'static str)
        ensures
            r@ == tag_exname(*self),
    {
        match *self {
            Tags::book => "",
            Tags::HRtP => "01 - Reiiden",
            Tags::SoEW => "02 - Fuumaroku",
            Tags::PoDD => "03 - Yumejikuu",
            Tags::LLS => "04 - Gensoukyou",
            Tags::MS => "05 - Kaikidan",
            Tags::EoSD => "06 - Koumakan",
            Tags::PCB => "07 - Youyoumu",
            Tags::IaMP => "07.5 - Suimusou",
            Tags::IN => "08 - Eiyashou",
            Tags::PoFV => "09 - Kaeidzuka",
            Tags::StB => "09.5 - Bunkachou",
            Tags::MoF => "10 - Fuujinroku",
            Tags::SWR => "10.5 - Hisouten",
            Tags::SA => "11 - Chireiden",
            Tags::UFO => "12 - Seirensen",
            Tags::soku => "12.3 - Hisoutensoku",
            Tags::DS => "12.5 - Bunkachou",
            Tags::GFW => "12.8 - Daisensou",
            Tags::TD => "13 - Shinreibyou",
            Tags::HM => "13.5 - Shinkirou",
            Tags::DDC => "14 - Kishinjou",
            Tags::ISC => "14.3 - Amanojaku",
            Tags::ULiL => "14.5 - Shinpiroku",
            Tags::LoLK => "15 - Kanjuden",
            Tags::AoCF => "15.5 - Hyouibana",
            Tags::HSiFS => "16 - Tenkuushou",
            Tags::VD => "16.5 - Hifuu Nightmare Diary",
            Tags::WBaWC => "17 - Kikeijuu",
            Tags::ibun => "17.5 - Gouyoku Ibun",
            Tags::UM => "18 - Kouryuudou",
            Tags::BM100 => "18.5 - Bulletphilia-tachi no Yami-Ichiba",
            Tags::UDoALG => "19 - Unfinished Dream of All Living Ghost",
            Tags::st1 => "",
            Tags::st2 => "",
            Tags::st3 => "",
            Tags::st4 => "",
            Tags::st5 => "",
            Tags::st6 => "",
            Tags::ex => "",
        }
    }

    /// True of the tags of works (and books), false of stages.
    pub fn is_series_tag(&self) -> (r: bool)
        ensures
            r == !is_stage(*self),
    {
        match self {
            Tags::st1 => false,
            Tags::st2 => false,
            Tags::st3 => false,
            Tags::st4 => false,
            Tags::st5 => false,
            Tags::st6 => false,
            Tags::ex => false,
            _ => true,
        }
    }

    /// The group that an already lower-cased keyword names.
    pub fn from_keyword(k: &str) -> (r: Option<Tags>)
        ensures
            r == keyword_tag(k@),
    {
        if same_text(k, "book") {
            Some(Tags::book)
        } else if same_text(k, "hrtp") || same_text(k, "th01") {
            Some(Tags::HRtP)
        } else if same_text(k, "soew") || same_text(k, "th02") {
            Some(Tags::SoEW)
        } else if same_text(k, "podd") || same_text(k, "th03") {
            Some(Tags::PoDD)
        } else if same_text(k, "lls") || same_text(k, "th04") {
            Some(Tags::LLS)
        } else if same_text(k, "ms") || same_text(k, "th05") {
            Some(Tags::MS)
        } else if same_text(k, "eosd") || same_text(k, "th06") {
            Some(Tags::EoSD)
        } else if same_text(k, "pcb") || same_text(k, "th07") {
            Some(Tags::PCB)
        } else if same_text(k, "iamp") || same_text(k, "th07.5") {
            Some(Tags::IaMP)
        } else if same_text(k, "in") || same_text(k, "th08") {
            Some(Tags::IN)
        } else if same_text(k, "pofv") || same_text(k, "th09") {
            Some(Tags::PoFV)
        } else if same_text(k, "stb") || same_text(k, "th09.5") {
            Some(Tags::StB)
        } else if same_text(k, "mof") || same_text(k, "th10") {
            Some(Tags::MoF)
        } else if same_text(k, "swr") || same_text(k, "th10.5") {
            Some(Tags::SWR)
        } else if same_text(k, "sa") || same_text(k, "th11") {
            Some(Tags::SA)
        } else if same_text(k, "ufo") || same_text(k, "th12") {
            Some(Tags::UFO)
        } else if same_text(k, "soku") || same_text(k, "th12.3") {
            Some(Tags::soku)
        } else if same_text(k, "ds") || same_text(k, "th12.5") {
            Some(Tags::DS)
        } else if same_text(k, "gfw") || same_text(k, "th12.8") {
            Some(Tags::GFW)
        } else if same_text(k, "td") || same_text(k, "th13") {
            Some(Tags::TD)
        } else if same_text(k, "hm") || same_text(k, "th13.5") {
            Some(Tags::HM)
        } else if same_text(k, "ddc") || same_text(k, "th14") {
            Some(Tags::DDC)
        } else if same_text(k, "isc") || same_text(k, "th14.3") {
            Some(Tags::ISC)
        } else if same_text(k, "ulil") || same_text(k, "th14.5") {
            Some(Tags::ULiL)
        } else if same_text(k, "lolk") || same_text(k, "th15") {
            Some(Tags::LoLK)
        } else if same_text(k, "aocf") || same_text(k, "th15.5") {
            Some(Tags::AoCF)
        } else if same_text(k, "hsifs") || same_text(k, "th16") {
            Some(Tags::HSiFS)
        } else if same_text(k, "vd") || same_text(k, "th16.5") {
            Some(Tags::VD)
        } else if same_text(k, "wbawc") || same_text(k, "th17") {
            Some(Tags::WBaWC)
        } else if same_text(k, "ibun") || same_text(k, "th17.5") {
            Some(Tags::ibun)
        } else if same_text(k, "um") || same_text(k, "th18") {
            Some(Tags::UM)
        } else if same_text(k, "bm100") || same_text(k, "th18.5") {
            Some(Tags::BM100)
        } else if same_text(k, "udoalg") || same_text(k, "th19") {
            Some(Tags::UDoALG)
        } else if same_text(k, "st1") {
            Some(Tags::st1)
        } else if same_text(k, "st2") {
            Some(Tags::st2)
        } else if same_text(k, "st3") {
            Some(Tags::st3)
        } else if same_text(k, "st4") {
            Some(Tags::st4)
        } else if same_text(k, "st5") {
            Some(Tags::st5)
        } else if same_text(k, "st6") {
            Some(Tags::st6)
        } else if same_text(k, "ex") {
            Some(Tags::ex)
        } else {
            None
        }
    }

    /// The group that a keyword names, in any case.
    pub fn parse(s: &str) -> (r: Option<Tags>)
        ensures
            r == keyword_tag(lower_of(s@)),
    {
        let lowered = lowercase(s);
        Tags::from_keyword(lowered.as_str())
    }
}

} // verus!
