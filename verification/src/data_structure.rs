pub mod binary_heap;
pub mod linked_list;
pub mod trie;
pub mod tripod_list;
