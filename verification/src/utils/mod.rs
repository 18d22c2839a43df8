pub mod answer_type_action;
pub mod console_print;
pub mod input_action;
pub mod input_handler;
pub mod text_matcher;
