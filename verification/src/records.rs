//! The two record shapes, their abstract views, and the transport schemes.

use vstd::prelude::*;

verus! {

/// Fixed-point epicenter location: decimal degrees times ten.
#[derive(Clone, Copy, Debug, PartialEq, Eq, Structural)]
pub struct Epicenter {
    pub lat_x10: i32,
    pub lon_x10: i32,
}

/// The two interchangeable text transport schemes.
///
/// Scheme A packs fifteen payload bits per codepoint and its envelope
/// carries a marker byte; Scheme B packs a byte pair per codepoint and
/// carries no marker.
#[derive(Clone, Copy, Debug, PartialEq, Eq, Structural)]
pub enum Scheme {
    A,
    B,
}

/// Earthquake intensity report: regions listed per intensity level.
/// An empty bucket is equivalent to an absent one on the wire.
#[derive(Clone, Debug, PartialEq, Eq)]
pub struct QuakeRecord {
    pub time: u64,
    pub epicenter: Option<Epicenter>,
    pub one: Vec<u32>,
    pub two: Vec<u32>,
    pub three: Vec<u32>,
    pub four: Vec<u32>,
    pub five_minus: Vec<u32>,
    pub five_plus: Vec<u32>,
    pub six_minus: Vec<u32>,
    pub six_plus: Vec<u32>,
    pub seven: Vec<u32>,
}

/// Tsunami forecast report: regions listed per forecast level.
#[derive(Clone, Debug, PartialEq, Eq)]
pub struct TsunamiRecord {
    pub time: u64,
    pub epicenter: Option<Epicenter>,
    pub forecast: Vec<u32>,
    pub advisory: Vec<u32>,
    pub warning: Vec<u32>,
    pub major_warning: Vec<u32>,
}

/// A payload record of either shape, keyed by a one-byte type id on the wire.
#[derive(Clone, Debug, PartialEq, Eq)]
pub enum Record {
    Quake(QuakeRecord),
    Tsunami(TsunamiRecord),
}

/// Mathematical view of a `QuakeRecord`.
pub struct QuakeView {
    pub time: u64,
    pub epicenter: Option<Epicenter>,
    pub one: Seq<u32>,
    pub two: Seq<u32>,
    pub three: Seq<u32>,
    pub four: Seq<u32>,
    pub five_minus: Seq<u32>,
    pub five_plus: Seq<u32>,
    pub six_minus: Seq<u32>,
    pub six_plus: Seq<u32>,
    pub seven: Seq<u32>,
}

/// Mathematical view of a `TsunamiRecord`.
pub struct TsunamiView {
    pub time: u64,
    pub epicenter: Option<Epicenter>,
    pub forecast: Seq<u32>,
    pub advisory: Seq<u32>,
    pub warning: Seq<u32>,
    pub major_warning: Seq<u32>,
}

/// Mathematical view of a `Record`.
pub enum RecordView {
    Quake(QuakeView),
    Tsunami(TsunamiView),
}

impl View for QuakeRecord {
    type V = QuakeView;

    open spec fn view(&self) -> QuakeView {
        QuakeView {
            time: self.time,
            epicenter: self.epicenter,
            one: self.one@,
            two: self.two@,
            three: self.three@,
            four: self.four@,
            five_minus: self.five_minus@,
            five_plus: self.five_plus@,
            six_minus: self.six_minus@,
            six_plus: self.six_plus@,
            seven: self.seven@,
        }
    }
}

impl View for TsunamiRecord {
    type V = TsunamiView;

    open spec fn view(&self) -> TsunamiView {
        TsunamiView {
            time: self.time,
            epicenter: self.epicenter,
            forecast: self.forecast@,
            advisory: self.advisory@,
            warning: self.warning@,
            major_warning: self.major_warning@,
        }
    }
}

impl View for Record {
    type V = RecordView;

    open spec fn view(&self) -> RecordView {
        match self {
            Record::Quake(q) => RecordView::Quake(q@),
            Record::Tsunami(t) => RecordView::Tsunami(t@),
        }
    }
}

/// The one-byte type id that selects the payload shape on the wire.
pub open spec fn spec_type_id(rv: RecordView) -> u8 {
    match rv {
        RecordView::Quake(_) => 0,
        RecordView::Tsunami(_) => 1,
    }
}

/// Exec counterpart of [`spec_type_id`].
pub fn type_id(r: &Record) -> (id: u8)
    ensures
        id == spec_type_id(r@),
{
    match r {
        Record::Quake(_) => 0,
        Record::Tsunami(_) => 1,
    }
}

/// A tsunami payload may only travel under Scheme A: Scheme B's detection
/// heuristic relies on the first envelope byte being zero, which only the
/// quake shape's type id satisfies.
pub open spec fn scheme_allowed(rv: RecordView, scheme: Scheme) -> bool {
    scheme == Scheme::A || rv is Quake
}

} // verus!
