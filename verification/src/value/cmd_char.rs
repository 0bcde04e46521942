//! The legacy control-character values of generation v0.
//!
//! Each value stands for one control byte of the flat wire format; newer
//! generation files never carry them, but old files decode to them.

use vstd::prelude::*;

verus! {

/// A single legacy control character, one for each byte the flat generation's
/// escape runs accept.
#[derive(Debug, Clone, Copy, PartialEq, Eq, Structural)]
pub enum CommandCharacter {
    Null,
    StartOfHeading,
    StartOfText,
    EndOfText,
    EndOfTransmission,
    Enquiry,
    Acknowledge,
    Bell,
    Backspace,
    HorizontalTab,
    LineFeed,
    VerticalTab,
    FormFeed,
    CarriageReturn,
    ShiftOut,
    ShiftIn,
    DataLinkEscape,
    DeviceControl1,
    DeviceControl2,
    DeviceControl3,
    DeviceControl4,
    NegativeAcknowledge,
    SynchronousIdle,
    EndOfTransmitBlock,
    Cancel,
    EndOfMedium,
    Substitute,
    Escape,
    FileSeparator,
    GroupSeparator,
    RecordSeparator,
    UnitSeparator,
    Space,
    Delete,
    NonBreakingSpace,
    SoftHyphen,
}

/// The bytes that stand for a command character on the wire.
pub open spec fn valid_cmd_byte(b: u8) -> bool {
    b <= 32 || b == 127 || b == 160 || b == 173
}

/// The wire byte of a command character.
pub open spec fn cmd_byte(c: CommandCharacter) -> u8 {
    match c {
        CommandCharacter::Null => 0,
        CommandCharacter::StartOfHeading => 1,
        CommandCharacter::StartOfText => 2,
        CommandCharacter::EndOfText => 3,
        CommandCharacter::EndOfTransmission => 4,
        CommandCharacter::Enquiry => 5,
        CommandCharacter::Acknowledge => 6,
        CommandCharacter::Bell => 7,
        CommandCharacter::Backspace => 8,
        CommandCharacter::HorizontalTab => 9,
        CommandCharacter::LineFeed => 10,
        CommandCharacter::VerticalTab => 11,
        CommandCharacter::FormFeed => 12,
        CommandCharacter::CarriageReturn => 13,
        CommandCharacter::ShiftOut => 14,
        CommandCharacter::ShiftIn => 15,
        CommandCharacter::DataLinkEscape => 16,
        CommandCharacter::DeviceControl1 => 17,
        CommandCharacter::DeviceControl2 => 18,
        CommandCharacter::DeviceControl3 => 19,
        CommandCharacter::DeviceControl4 => 20,
        CommandCharacter::NegativeAcknowledge => 21,
        CommandCharacter::SynchronousIdle => 22,
        CommandCharacter::EndOfTransmitBlock => 23,
        CommandCharacter::Cancel => 24,
        CommandCharacter::EndOfMedium => 25,
        CommandCharacter::Substitute => 26,
        CommandCharacter::Escape => 27,
        CommandCharacter::FileSeparator => 28,
        CommandCharacter::GroupSeparator => 29,
        CommandCharacter::RecordSeparator => 30,
        CommandCharacter::UnitSeparator => 31,
        CommandCharacter::Space => 32,
        CommandCharacter::Delete => 127,
        CommandCharacter::NonBreakingSpace => 160,
        CommandCharacter::SoftHyphen => 173,
    }
}

/// The command character a wire byte stands for; bytes outside the accepted
/// set fall back to `Null`.
pub open spec fn cmd_of_byte(b: u8) -> CommandCharacter {
    if b == 0 {
        CommandCharacter::Null
    } else if b == 1 {
        CommandCharacter::StartOfHeading
    } else if b == 2 {
        CommandCharacter::StartOfText
    } else if b == 3 {
        CommandCharacter::EndOfText
    } else if b == 4 {
        CommandCharacter::EndOfTransmission
    } else if b == 5 {
        CommandCharacter::Enquiry
    } else if b == 6 {
        CommandCharacter::Acknowledge
    } else if b == 7 {
        CommandCharacter::Bell
    } else if b == 8 {
        CommandCharacter::Backspace
    } else if b == 9 {
        CommandCharacter::HorizontalTab
    } else if b == 10 {
        CommandCharacter::LineFeed
    } else if b == 11 {
        CommandCharacter::VerticalTab
    } else if b == 12 {
        CommandCharacter::FormFeed
    } else if b == 13 {
        CommandCharacter::CarriageReturn
    } else if b == 14 {
        CommandCharacter::ShiftOut
    } else if b == 15 {
        CommandCharacter::ShiftIn
    } else if b == 16 {
        CommandCharacter::DataLinkEscape
    } else if b == 17 {
        CommandCharacter::DeviceControl1
    } else if b == 18 {
        CommandCharacter::DeviceControl2
    } else if b == 19 {
        CommandCharacter::DeviceControl3
    } else if b == 20 {
        CommandCharacter::DeviceControl4
    } else if b == 21 {
        CommandCharacter::NegativeAcknowledge
    } else if b == 22 {
        CommandCharacter::SynchronousIdle
    } else if b == 23 {
        CommandCharacter::EndOfTransmitBlock
    } else if b == 24 {
        CommandCharacter::Cancel
    } else if b == 25 {
        CommandCharacter::EndOfMedium
    } else if b == 26 {
        CommandCharacter::Substitute
    } else if b == 27 {
        CommandCharacter::Escape
    } else if b == 28 {
        CommandCharacter::FileSeparator
    } else if b == 29 {
        CommandCharacter::GroupSeparator
    } else if b == 30 {
        CommandCharacter::RecordSeparator
    } else if b == 31 {
        CommandCharacter::UnitSeparator
    } else if b == 32 {
        CommandCharacter::Space
    } else if b == 127 {
        CommandCharacter::Delete
    } else if b == 160 {
        CommandCharacter::NonBreakingSpace
    } else if b == 173 {
        CommandCharacter::SoftHyphen
    } else {
        CommandCharacter::Null
    }
}

/// The wire byte and the character determine each other on the accepted set.
pub proof fn lemma_cmd_byte_round_trip(c: CommandCharacter)
    ensures
        valid_cmd_byte(cmd_byte(c)),
        cmd_of_byte(cmd_byte(c)) == c,
{
}

impl From<u8> for CommandCharacter {
    fn from(c: u8) -> (r: Self) {
        CommandCharacter::from_u8(c)
    }
}

impl vstd::std_specs::convert::FromSpecImpl<u8> for CommandCharacter {
    open spec fn obeys_from_spec() -> bool {
        true
    }

    open spec fn from_spec(c: u8) -> Self {
        cmd_of_byte(c)
    }
}

impl CommandCharacter {
    /// The command character a byte stands for, with `Null` for a byte
    /// outside the accepted set.
    pub fn from_u8(c: u8) -> (r: Self)
        ensures
            r == cmd_of_byte(c),
    {
        match c {
            0 => CommandCharacter::Null,
            1 => CommandCharacter::StartOfHeading,
            2 => CommandCharacter::StartOfText,
            3 => CommandCharacter::EndOfText,
            4 => CommandCharacter::EndOfTransmission,
            5 => CommandCharacter::Enquiry,
            6 => CommandCharacter::Acknowledge,
            7 => CommandCharacter::Bell,
            8 => CommandCharacter::Backspace,
            9 => CommandCharacter::HorizontalTab,
            10 => CommandCharacter::LineFeed,
            11 => CommandCharacter::VerticalTab,
            12 => CommandCharacter::FormFeed,
            13 => CommandCharacter::CarriageReturn,
            14 => CommandCharacter::ShiftOut,
            15 => CommandCharacter::ShiftIn,
            16 => CommandCharacter::DataLinkEscape,
            17 => CommandCharacter::DeviceControl1,
            18 => CommandCharacter::DeviceControl2,
            19 => CommandCharacter::DeviceControl3,
            20 => CommandCharacter::DeviceControl4,
            21 => CommandCharacter::NegativeAcknowledge,
            22 => CommandCharacter::SynchronousIdle,
            23 => CommandCharacter::EndOfTransmitBlock,
            24 => CommandCharacter::Cancel,
            25 => CommandCharacter::EndOfMedium,
            26 => CommandCharacter::Substitute,
            27 => CommandCharacter::Escape,
            28 => CommandCharacter::FileSeparator,
            29 => CommandCharacter::GroupSeparator,
            30 => CommandCharacter::RecordSeparator,
            31 => CommandCharacter::UnitSeparator,
            32 => CommandCharacter::Space,
            127 => CommandCharacter::Delete,
            160 => CommandCharacter::NonBreakingSpace,
            173 => CommandCharacter::SoftHyphen,
            _ => CommandCharacter::Null,
        }
    }

    /// The command character a byte stands for, or nothing for a byte outside
    /// the accepted set.
    pub fn from_u8_checked(c: u8) -> (r: Option<Self>)
        ensures
            r is Some <==> valid_cmd_byte(c),
            r is Some ==> r->0 == cmd_of_byte(c),
    {
        if c <= 32 || c == 127 || c == 160 || c == 173 {
            Some(Self::from_u8(c))
        } else {
            None
        }
    }

    /// The wire byte of this command character.
    pub fn as_u8(&self) -> (r: u8)
        ensures
            r == cmd_byte(*self),
    {
        match self {
            CommandCharacter::Null => 0,
            CommandCharacter::StartOfHeading => 1,
            CommandCharacter::StartOfText => 2,
            CommandCharacter::EndOfText => 3,
            CommandCharacter::EndOfTransmission => 4,
            CommandCharacter::Enquiry => 5,
            CommandCharacter::Acknowledge => 6,
            CommandCharacter::Bell => 7,
            CommandCharacter::Backspace => 8,
            CommandCharacter::HorizontalTab => 9,
            CommandCharacter::LineFeed => 10,
            CommandCharacter::VerticalTab => 11,
            CommandCharacter::FormFeed => 12,
            CommandCharacter::CarriageReturn => 13,
            CommandCharacter::ShiftOut => 14,
            CommandCharacter::ShiftIn => 15,
            CommandCharacter::DataLinkEscape => 16,
            CommandCharacter::DeviceControl1 => 17,
            CommandCharacter::DeviceControl2 => 18,
            CommandCharacter::DeviceControl3 => 19,
            CommandCharacter::DeviceControl4 => 20,
            CommandCharacter::NegativeAcknowledge => 21,
            CommandCharacter::SynchronousIdle => 22,
            CommandCharacter::EndOfTransmitBlock => 23,
            CommandCharacter::Cancel => 24,
            CommandCharacter::EndOfMedium => 25,
            CommandCharacter::Substitute => 26,
            CommandCharacter::Escape => 27,
            CommandCharacter::FileSeparator => 28,
            CommandCharacter::GroupSeparator => 29,
            CommandCharacter::RecordSeparator => 30,
            CommandCharacter::UnitSeparator => 31,
            CommandCharacter::Space => 32,
            CommandCharacter::Delete => 127,
            CommandCharacter::NonBreakingSpace => 160,
            CommandCharacter::SoftHyphen => 173,
        }
    }
}

} // verus!
