//! Origins as the store keeps them and as they travel in messages, and the
//! conversion between the two.

use vstd::prelude::*;
use vstd::std_specs::convert::FromSpecImpl;

verus! {

/// Who may see the packages of an origin by default.
#[derive(Clone, Copy, Debug, PartialEq, Eq, Structural)]
pub enum PackageVisibility {
    Public,
    Private,
    Hidden,
}

/// The visibility as messages name it.
#[derive(Clone, Copy, Debug, PartialEq, Eq, Structural)]
pub enum OriginPackageVisibility {
    Public,
    Private,
    Hidden,
}

/// A point in time as the store gives it: seconds since the epoch, and nanoseconds.
#[derive(Clone, Copy, Debug, PartialEq, Eq, Structural)]
pub struct Timestamp {
    pub secs: i64,
    pub nanos: u32,
}

/// An origin as the store keeps it.
#[derive(Debug, PartialEq, Eq)]
pub struct Origin {
    pub owner_id: i64,
    pub name: String,
    pub created_at: Option<Timestamp>,
    pub updated_at: Option<Timestamp>,
    pub default_package_visibility: PackageVisibility,
}

/// An origin as it travels in messages.
#[derive(Debug, PartialEq, Eq)]
pub struct OriginMessage {
    pub owner_id: u64,
    pub name: String,
    pub default_package_visibility: OriginPackageVisibility,
}

/// The visibility as messages name it.
pub open spec fn visibility_to_message(v: PackageVisibility) -> OriginPackageVisibility {
    match v {
        PackageVisibility::Public => OriginPackageVisibility::Public,
        PackageVisibility::Private => OriginPackageVisibility::Private,
        PackageVisibility::Hidden => OriginPackageVisibility::Hidden,
    }
}

/// The visibility that a message names.
pub open spec fn visibility_from_message(v: OriginPackageVisibility) -> PackageVisibility {
    match v {
        OriginPackageVisibility::Public => PackageVisibility::Public,
        OriginPackageVisibility::Private => PackageVisibility::Private,
        OriginPackageVisibility::Hidden => PackageVisibility::Hidden,
    }
}

/// A signed owner id read as an unsigned number of as many bits: a negative id `x` reads
/// as `x + 2^64`.
pub open spec fn id_to_message(id: i64) -> u64 {
    if id >= 0 {
        id as u64
    } else {
        (id + 0x1_0000_0000_0000_0000) as u64
    }
}

/// An unsigned owner id read as a signed number of as many bits: an id `x` from `2^63` on
/// reads as `x - 2^64`.
pub open spec fn id_from_message(id: u64) -> i64 {
    if id <= 0x7fff_ffff_ffff_ffff {
        id as i64
    } else {
        (id - 0x1_0000_0000_0000_0000) as i64
    }
}

/// The message for a stored origin; the times of creation and update do not travel.
pub open spec fn message_of(origin: Origin) -> OriginMessage {
    OriginMessage {
        owner_id: id_to_message(origin.owner_id),
        name: origin.name,
        default_package_visibility: visibility_to_message(origin.default_package_visibility),
    }
}

/// The origin that a message describes, with no times of creation and update.
pub open spec fn origin_of(message: OriginMessage) -> Origin {
    Origin {
        owner_id: id_from_message(message.owner_id),
        name: message.name,
        created_at: None,
        updated_at: None,
        default_package_visibility: visibility_from_message(message.default_package_visibility),
    }
}

fn owner_id_to_message(id: i64) -> (r: u64)
    ensures
        r == id_to_message(id),
{
    if id >= 0 {
        id as u64
    } else {
        let above: u64 = (id - i64::MIN) as u64;
        above + 0x8000_0000_0000_0000u64
    }
}

fn owner_id_from_message(id: u64) -> (r: i64)
    ensures
        r == id_from_message(id),
{
    if id <= 0x7fff_ffff_ffff_ffffu64 {
        id as i64
    } else {
        let above: i64 = (id - 0x8000_0000_0000_0000u64) as i64;
        above + i64::MIN
    }
}

impl From<PackageVisibility> for OriginPackageVisibility {
    fn from(v: PackageVisibility) -> (r: Self) {
        match v {
            PackageVisibility::Public => OriginPackageVisibility::Public,
            PackageVisibility::Private => OriginPackageVisibility::Private,
            PackageVisibility::Hidden => OriginPackageVisibility::Hidden,
        }
    }
}

impl FromSpecImpl<PackageVisibility> for OriginPackageVisibility {
    open spec fn obeys_from_spec() -> bool {
        true
    }

    open spec fn from_spec(v: PackageVisibility) -> Self {
        visibility_to_message(v)
    }
}

impl From<OriginPackageVisibility> for PackageVisibility {
    fn from(v: OriginPackageVisibility) -> (r: Self) {
        match v {
            OriginPackageVisibility::Public => PackageVisibility::Public,
            OriginPackageVisibility::Private => PackageVisibility::Private,
            OriginPackageVisibility::Hidden => PackageVisibility::Hidden,
        }
    }
}

impl FromSpecImpl<OriginPackageVisibility> for PackageVisibility {
    open spec fn obeys_from_spec() -> bool {
        true
    }

    open spec fn from_spec(v: OriginPackageVisibility) -> Self {
        visibility_from_message(v)
    }
}

impl From<Origin> for OriginMessage {
    /// The message for a stored origin; the times of creation and update do not travel.
    fn from(origin: Origin) -> (r: Self) {
        OriginMessage {
            owner_id: owner_id_to_message(origin.owner_id),
            name: origin.name,
            default_package_visibility: OriginPackageVisibility::from(
                origin.default_package_visibility,
            ),
        }
    }
}

impl FromSpecImpl<Origin> for OriginMessage {
    open spec fn obeys_from_spec() -> bool {
        true
    }

    open spec fn from_spec(origin: Origin) -> Self {
        message_of(origin)
    }
}

impl From<OriginMessage> for Origin {
    /// The origin that a message describes, with no times of creation and update.
    fn from(message: OriginMessage) -> (r: Self) {
        Origin {
            owner_id: owner_id_from_message(message.owner_id),
            name: message.name,
            created_at: None,
            updated_at: None,
            default_package_visibility: PackageVisibility::from(
                message.default_package_visibility,
            ),
        }
    }
}

impl FromSpecImpl<OriginMessage> for Origin {
    open spec fn obeys_from_spec() -> bool {
        true
    }

    open spec fn from_spec(message: OriginMessage) -> Self {
        origin_of(message)
    }
}

/// An origin that went into a message and came back has its owner, name and visibility;
/// the times are gone.
pub proof fn law_origin_survives_message(origin: Origin)
    ensures
        origin_of(message_of(origin)) == (Origin { created_at: None, updated_at: None, ..origin }),
{
}

/// Whether any member row was found: the store's count of rows is above zero.
pub fn membership_found(rows: usize) -> (r: bool)
    ensures
        r == (rows > 0),
{
    rows > 0
}

} // verus!
