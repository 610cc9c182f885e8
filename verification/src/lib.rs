pub mod slot_vec;
pub mod tree;
pub mod tree_order;
pub mod tree_walk;
pub mod reconciler;
pub mod graph;
pub mod id;
pub mod id_tree;
pub mod widget;
pub mod event;
pub mod lifecycle;
pub mod hlist;
pub mod component_stack;
pub mod render_loop;
pub mod view_node;
pub mod state;
pub mod context;
pub mod element;
pub mod tree_format;
pub mod storages;
pub mod updater;
