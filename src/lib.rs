pub mod bitset;
pub mod conv;
pub mod kmp_search;
pub mod life;
pub mod llist;
pub mod torrent_file;
pub mod list;
