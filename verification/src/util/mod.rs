pub mod question_parser;
