pub mod binary_search;
pub mod bubble_sort;
pub mod linear_search;
pub mod linked_list;
pub mod path_finding;
pub mod queue;
pub mod quick_sort;
pub mod sorted;
pub mod stack;
pub mod tree;
pub mod two_crystal_balls;
