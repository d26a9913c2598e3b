//! The command surface: what a front end asks the engine to do.

use vstd::prelude::*;

verus! {

/// One invocation's parsed arguments.
#[derive(Debug, Clone, PartialEq)]
pub struct Cli {
    pub command: Command,
}

/// The commands the client answers, each with its inputs.
#[derive(Debug, Clone, PartialEq)]
pub enum Command {
    /// Print the value a bencoded token spells.
    Decode { token: String },
    /// Print a torrent's tracker, length, hash and piece hashes.
    Info { path: String },
    /// Print the peers the tracker returns.
    Peers { path: String },
    /// Open a handshake with one peer and print its ID.
    Handshake { path: String, address: String },
    /// Download one piece to a file.
    DownloadPiece { output: String, path: String, index: u32 },
    /// Download the whole torrent to a file.
    Download { output: String, path: String },
    /// Print the parts of a magnet link.
    MagnetParse { url: String },
    /// Fetch metadata over the extension protocol and print it.
    MagnetInfo { url: String },
    /// Open a handshake via a magnet link and print the peer's ID.
    MagnetHandshake { url: String },
    /// Download one piece of a magnet-named torrent.
    MagnetDownloadPiece { output: String, url: String, index: u32 },
    /// Download a whole magnet-named torrent.
    MagnetDownload { output: String, url: String },
}

} // verus!
