//! The inventory record type, its mathematical model, and the error taxonomy.

use vstd::prelude::*;

verus! {

/// Mathematical model of one inventory record as it crosses the command
/// surface: every field reduced to mathematical values.
pub ghost struct ItemModel {
    pub id: Option<int>,
    pub name: Seq<char>,
    pub image_path: Option<Seq<char>>,
    pub cantidad_necesaria: int,
    pub cantidad_disponible: int,
    pub created_at: Option<Seq<char>>,
}

/// One inventory record. `id` and `created_at` are assigned by the store at
/// insert time and are `None` only on a record that was never stored.
#[derive(Debug, Clone, PartialEq)]
pub struct InventoryItem {
    pub id: Option<i64>,
    pub name: String,
    pub image_path: Option<String>,
    pub cantidad_necesaria: i32,
    pub cantidad_disponible: i32,
    pub created_at: Option<String>,
}

impl View for InventoryItem {
    type V = ItemModel;

    open spec fn view(&self) -> ItemModel {
        ItemModel {
            id: match self.id {
                Some(n) => Some(n as int),
                None => None,
            },
            name: self.name@,
            image_path: match self.image_path {
                Some(p) => Some(p@),
                None => None,
            },
            cantidad_necesaria: self.cantidad_necesaria as int,
            cantidad_disponible: self.cantidad_disponible as int,
            created_at: match self.created_at {
                Some(t) => Some(t@),
                None => None,
            },
        }
    }
}

/// The error taxonomy of the repository. File-deletion failures are
/// deliberately swallowed everywhere, so no variant exists for them.
#[derive(Debug, Clone, Copy, PartialEq, Eq, Structural)]
pub enum InvError {
    /// A query or statement against the store failed.
    Persistence,
    /// A base64 image payload could not be decoded.
    ImageDecode,
    /// An image file could not be written.
    ImageWrite,
}

impl InvError {
    /// The human-readable message reported at the command boundary.
    pub open spec fn message_spec(&self) -> Seq<char> {
        match self {
            InvError::Persistence => "database operation failed"@,
            InvError::ImageDecode => "invalid base64 image data"@,
            InvError::ImageWrite => "failed to write image file"@,
        }
    }

    /// Render the error as the message string handed to callers.
    pub fn message(&self) -> (r: String)
        ensures
            r@ == self.message_spec(),
    {
        match self {
            InvError::Persistence => String::from_str("database operation failed"),
            InvError::ImageDecode => String::from_str("invalid base64 image data"),
            InvError::ImageWrite => String::from_str("failed to write image file"),
        }
    }
}

} // verus!
