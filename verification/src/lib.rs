pub mod datastructures;
