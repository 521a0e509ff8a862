//! A shared "town" grid rebuilt each round from independently authored
//! ASCII-art plots: parsing the plot text format, resolving competing
//! claims by owner priority with the previous round's tenant breaking
//! ties, rendering the grid as plain text and as hyperlinked HTML, and
//! filling unclaimed space from a deterministic background pattern.
pub mod background;
pub mod cadastre;
pub mod owner;
pub mod parcel;
pub mod pos;
pub mod strutil;
