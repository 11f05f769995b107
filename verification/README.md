# rs_grill

A point-of-sale program for a grill restaurant: waiters open comands, add
product lines (with a group value such as a steak's point), finish them with a
payment method, and at the end of the day export a spreadsheet report; the
stock, the products, the groups and the backups of past days are kept in text
files in the home folder.

- `src/` is the library, verified with Verus: the text formats of every file
  (writing and reading back), the screens' state machines (comands, stock),
  the backups' order and selection, the report's cell layout and formulas,
  and the text handling they share.
- `tests/` runs the library on concrete values.
- `app/` is the program around it: the desktop backend (files, dialogs,
  spreadsheet writing, the float prices) and the screens.
