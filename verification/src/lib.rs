//! Classic data structures (binary search tree, singly and doubly linked
//! lists, stack) and comparison-based sorting algorithms (bubble, insertion,
//! selection), each implemented as a self-contained textbook module and
//! verified against a sequence-based model.

pub mod binary_search_tree;
pub mod bubble_sort;
pub mod doubly_linked_list;
pub mod insertion_sort;
pub mod linked_list;
pub mod selection_sort;
pub mod seq_facts;
pub mod stack;
